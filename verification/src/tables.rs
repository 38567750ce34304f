//! What the tables of spellings and of half-width kana say, by the order of the kana.
use vstd::prelude::*;
use vstd::string::*;
use crate::romaji::{hankaku_from, hankaku_of, kana_from, kana_of, standard};
use crate::spelling::{azik_small, azik_words, hankaku, standard_list};

verus! {

/// The place of a row in the list of half-width forms.
spec fn slot(c: char) -> int {
    match c {
        'ア' => 0,
        'イ' => 1,
        'ウ' => 2,
        'エ' => 3,
        'オ' => 4,
        'カ' => 5,
        'キ' => 6,
        'ク' => 7,
        'ケ' => 8,
        'コ' => 9,
        'サ' => 10,
        'シ' => 11,
        'ス' => 12,
        'セ' => 13,
        'ソ' => 14,
        'タ' => 15,
        'チ' => 16,
        'ツ' => 17,
        'テ' => 18,
        'ト' => 19,
        'ナ' => 20,
        'ニ' => 21,
        'ヌ' => 22,
        'ネ' => 23,
        'ノ' => 24,
        'ハ' => 25,
        'ヒ' => 26,
        'フ' => 27,
        'ヘ' => 28,
        'ホ' => 29,
        'マ' => 30,
        'ミ' => 31,
        'ム' => 32,
        'メ' => 33,
        'モ' => 34,
        'ヤ' => 35,
        'ユ' => 36,
        'ヨ' => 37,
        'ラ' => 38,
        'リ' => 39,
        'ル' => 40,
        'レ' => 41,
        'ロ' => 42,
        'ワ' => 43,
        'ヲ' => 44,
        'ン' => 45,
        'ァ' => 46,
        'ィ' => 47,
        'ゥ' => 48,
        'ェ' => 49,
        'ォ' => 50,
        'ッ' => 51,
        'ャ' => 52,
        'ュ' => 53,
        'ョ' => 54,
        'ガ' => 55,
        'ギ' => 56,
        'グ' => 57,
        'ゲ' => 58,
        'ゴ' => 59,
        'ザ' => 60,
        'ジ' => 61,
        'ズ' => 62,
        'ゼ' => 63,
        'ゾ' => 64,
        'ダ' => 65,
        'ヂ' => 66,
        'ヅ' => 67,
        'デ' => 68,
        'ド' => 69,
        'バ' => 70,
        'ビ' => 71,
        'ブ' => 72,
        'ベ' => 73,
        'ボ' => 74,
        'パ' => 75,
        'ピ' => 76,
        'プ' => 77,
        'ペ' => 78,
        'ポ' => 79,
        'ヴ' => 80,
        'ー' => 81,
        '、' => 82,
        '。' => 83,
        '「' => 84,
        '」' => 85,
        '・' => 86,
        _ => -1,
    }
}

proof fn lemma_forms_a()
    ensures
        forall|i: int| 0 <= i < 22 ==> slot((#[trigger] hankaku()[i]).0) == i,
        hankaku().len() == 87,
{
    reveal(hankaku);
    assert(hankaku()[0].0 == 'ア');
    assert(hankaku()[1].0 == 'イ');
    assert(hankaku()[2].0 == 'ウ');
    assert(hankaku()[3].0 == 'エ');
    assert(hankaku()[4].0 == 'オ');
    assert(hankaku()[5].0 == 'カ');
    assert(hankaku()[6].0 == 'キ');
    assert(hankaku()[7].0 == 'ク');
    assert(hankaku()[8].0 == 'ケ');
    assert(hankaku()[9].0 == 'コ');
    assert(hankaku()[10].0 == 'サ');
    assert(hankaku()[11].0 == 'シ');
    assert(hankaku()[12].0 == 'ス');
    assert(hankaku()[13].0 == 'セ');
    assert(hankaku()[14].0 == 'ソ');
    assert(hankaku()[15].0 == 'タ');
    assert(hankaku()[16].0 == 'チ');
    assert(hankaku()[17].0 == 'ツ');
    assert(hankaku()[18].0 == 'テ');
    assert(hankaku()[19].0 == 'ト');
    assert(hankaku()[20].0 == 'ナ');
    assert(hankaku()[21].0 == 'ニ');
    assert forall|i: int| 0 <= i < 22 implies slot((#[trigger] hankaku()[i]).0) == i by {
        assert(i == 0 || i == 1 || i == 2 || i == 3 || i == 4 || i == 5 || i == 6 || i == 7 || i == 8 || i == 9 || i == 10 || i == 11 || i == 12 || i == 13 || i == 14 || i == 15 || i == 16 || i == 17 || i == 18 || i == 19 || i == 20 || i == 21);
    }
}

proof fn lemma_forms_b()
    ensures
        forall|i: int| 22 <= i < 44 ==> slot((#[trigger] hankaku()[i]).0) == i,
        hankaku().len() == 87,
{
    reveal(hankaku);
    assert(hankaku()[22].0 == 'ヌ');
    assert(hankaku()[23].0 == 'ネ');
    assert(hankaku()[24].0 == 'ノ');
    assert(hankaku()[25].0 == 'ハ');
    assert(hankaku()[26].0 == 'ヒ');
    assert(hankaku()[27].0 == 'フ');
    assert(hankaku()[28].0 == 'ヘ');
    assert(hankaku()[29].0 == 'ホ');
    assert(hankaku()[30].0 == 'マ');
    assert(hankaku()[31].0 == 'ミ');
    assert(hankaku()[32].0 == 'ム');
    assert(hankaku()[33].0 == 'メ');
    assert(hankaku()[34].0 == 'モ');
    assert(hankaku()[35].0 == 'ヤ');
    assert(hankaku()[36].0 == 'ユ');
    assert(hankaku()[37].0 == 'ヨ');
    assert(hankaku()[38].0 == 'ラ');
    assert(hankaku()[39].0 == 'リ');
    assert(hankaku()[40].0 == 'ル');
    assert(hankaku()[41].0 == 'レ');
    assert(hankaku()[42].0 == 'ロ');
    assert(hankaku()[43].0 == 'ワ');
    assert forall|i: int| 22 <= i < 44 implies slot((#[trigger] hankaku()[i]).0) == i by {
        assert(i == 22 || i == 23 || i == 24 || i == 25 || i == 26 || i == 27 || i == 28 || i == 29 || i == 30 || i == 31 || i == 32 || i == 33 || i == 34 || i == 35 || i == 36 || i == 37 || i == 38 || i == 39 || i == 40 || i == 41 || i == 42 || i == 43);
    }
}

proof fn lemma_forms_c()
    ensures
        forall|i: int| 44 <= i < 66 ==> slot((#[trigger] hankaku()[i]).0) == i,
        hankaku().len() == 87,
{
    reveal(hankaku);
    assert(hankaku()[44].0 == 'ヲ');
    assert(hankaku()[45].0 == 'ン');
    assert(hankaku()[46].0 == 'ァ');
    assert(hankaku()[47].0 == 'ィ');
    assert(hankaku()[48].0 == 'ゥ');
    assert(hankaku()[49].0 == 'ェ');
    assert(hankaku()[50].0 == 'ォ');
    assert(hankaku()[51].0 == 'ッ');
    assert(hankaku()[52].0 == 'ャ');
    assert(hankaku()[53].0 == 'ュ');
    assert(hankaku()[54].0 == 'ョ');
    assert(hankaku()[55].0 == 'ガ');
    assert(hankaku()[56].0 == 'ギ');
    assert(hankaku()[57].0 == 'グ');
    assert(hankaku()[58].0 == 'ゲ');
    assert(hankaku()[59].0 == 'ゴ');
    assert(hankaku()[60].0 == 'ザ');
    assert(hankaku()[61].0 == 'ジ');
    assert(hankaku()[62].0 == 'ズ');
    assert(hankaku()[63].0 == 'ゼ');
    assert(hankaku()[64].0 == 'ゾ');
    assert(hankaku()[65].0 == 'ダ');
    assert forall|i: int| 44 <= i < 66 implies slot((#[trigger] hankaku()[i]).0) == i by {
        assert(i == 44 || i == 45 || i == 46 || i == 47 || i == 48 || i == 49 || i == 50 || i == 51 || i == 52 || i == 53 || i == 54 || i == 55 || i == 56 || i == 57 || i == 58 || i == 59 || i == 60 || i == 61 || i == 62 || i == 63 || i == 64 || i == 65);
    }
}

proof fn lemma_forms_d()
    ensures
        forall|i: int| 66 <= i < 87 ==> slot((#[trigger] hankaku()[i]).0) == i,
        hankaku().len() == 87,
{
    reveal(hankaku);
    assert(hankaku()[66].0 == 'ヂ');
    assert(hankaku()[67].0 == 'ヅ');
    assert(hankaku()[68].0 == 'デ');
    assert(hankaku()[69].0 == 'ド');
    assert(hankaku()[70].0 == 'バ');
    assert(hankaku()[71].0 == 'ビ');
    assert(hankaku()[72].0 == 'ブ');
    assert(hankaku()[73].0 == 'ベ');
    assert(hankaku()[74].0 == 'ボ');
    assert(hankaku()[75].0 == 'パ');
    assert(hankaku()[76].0 == 'ピ');
    assert(hankaku()[77].0 == 'プ');
    assert(hankaku()[78].0 == 'ペ');
    assert(hankaku()[79].0 == 'ポ');
    assert(hankaku()[80].0 == 'ヴ');
    assert(hankaku()[81].0 == 'ー');
    assert(hankaku()[82].0 == '、');
    assert(hankaku()[83].0 == '。');
    assert(hankaku()[84].0 == '「');
    assert(hankaku()[85].0 == '」');
    assert(hankaku()[86].0 == '・');
    assert forall|i: int| 66 <= i < 87 implies slot((#[trigger] hankaku()[i]).0) == i by {
        assert(i == 66 || i == 67 || i == 68 || i == 69 || i == 70 || i == 71 || i == 72 || i == 73 || i == 74 || i == 75 || i == 76 || i == 77 || i == 78 || i == 79 || i == 80 || i == 81 || i == 82 || i == 83 || i == 84 || i == 85 || i == 86);
    }
}

proof fn lemma_forms()
    ensures
        hankaku().len() == 87,
        forall|i: int| 0 <= i < hankaku().len() ==> slot((#[trigger] hankaku()[i]).0) == i,
{
    lemma_forms_a();
    lemma_forms_b();
    lemma_forms_c();
    lemma_forms_d();
}

proof fn lemma_form_found(i: int, j: int)
    requires
        0 <= j <= i < hankaku().len(),
    ensures
        hankaku_from(hankaku()[i].0, j) == hankaku()[i].1@,
    decreases i - j,
{
    lemma_forms();
    if j < i {
        assert(slot(hankaku()[j].0) == j);
        assert(slot(hankaku()[i].0) == i);
        lemma_form_found(i, j + 1);
    }
}

/// The kana that have a half-width form of one character, in the order of those forms.
pub open spec fn narrow_order() -> Seq<char> {
    "。「」、・ヲァィゥェォャュョッーアイウエオカキクケコサシスセソタチツテトナニヌネノハヒフヘホマミムメモヤユヨラリルレロワン"@
}

proof fn lemma_narrow_a(k: int)
    requires
        0 <= k < 16,
    ensures
        narrow_order().len() == 61,
        hankaku_of(narrow_order()[k]) == seq![(0xff61 + k) as u32 as char],
{
    reveal(hankaku);
    lemma_forms();
    reveal_strlit("。「」、・ヲァィゥェォャュョッーアイウエオカキクケコサシスセソタチツテトナニヌネノハヒフヘホマミムメモヤユヨラリルレロワン");
    if k == 0 {
        reveal_strlit("｡");
        lemma_form_found(83, 0);
        assert(hankaku()[83].0 == '。');
        assert(hankaku_of('。') =~= seq!['｡']);
    } else if k == 1 {
        reveal_strlit("｢");
        lemma_form_found(84, 0);
        assert(hankaku()[84].0 == '「');
        assert(hankaku_of('「') =~= seq!['｢']);
    } else if k == 2 {
        reveal_strlit("｣");
        lemma_form_found(85, 0);
        assert(hankaku()[85].0 == '」');
        assert(hankaku_of('」') =~= seq!['｣']);
    } else if k == 3 {
        reveal_strlit("､");
        lemma_form_found(82, 0);
        assert(hankaku()[82].0 == '、');
        assert(hankaku_of('、') =~= seq!['､']);
    } else if k == 4 {
        reveal_strlit("･");
        lemma_form_found(86, 0);
        assert(hankaku()[86].0 == '・');
        assert(hankaku_of('・') =~= seq!['･']);
    } else if k == 5 {
        reveal_strlit("ｦ");
        lemma_form_found(44, 0);
        assert(hankaku()[44].0 == 'ヲ');
        assert(hankaku_of('ヲ') =~= seq!['ｦ']);
    } else if k == 6 {
        reveal_strlit("ｧ");
        lemma_form_found(46, 0);
        assert(hankaku()[46].0 == 'ァ');
        assert(hankaku_of('ァ') =~= seq!['ｧ']);
    } else if k == 7 {
        reveal_strlit("ｨ");
        lemma_form_found(47, 0);
        assert(hankaku()[47].0 == 'ィ');
        assert(hankaku_of('ィ') =~= seq!['ｨ']);
    } else if k == 8 {
        reveal_strlit("ｩ");
        lemma_form_found(48, 0);
        assert(hankaku()[48].0 == 'ゥ');
        assert(hankaku_of('ゥ') =~= seq!['ｩ']);
    } else if k == 9 {
        reveal_strlit("ｪ");
        lemma_form_found(49, 0);
        assert(hankaku()[49].0 == 'ェ');
        assert(hankaku_of('ェ') =~= seq!['ｪ']);
    } else if k == 10 {
        reveal_strlit("ｫ");
        lemma_form_found(50, 0);
        assert(hankaku()[50].0 == 'ォ');
        assert(hankaku_of('ォ') =~= seq!['ｫ']);
    } else if k == 11 {
        reveal_strlit("ｬ");
        lemma_form_found(52, 0);
        assert(hankaku()[52].0 == 'ャ');
        assert(hankaku_of('ャ') =~= seq!['ｬ']);
    } else if k == 12 {
        reveal_strlit("ｭ");
        lemma_form_found(53, 0);
        assert(hankaku()[53].0 == 'ュ');
        assert(hankaku_of('ュ') =~= seq!['ｭ']);
    } else if k == 13 {
        reveal_strlit("ｮ");
        lemma_form_found(54, 0);
        assert(hankaku()[54].0 == 'ョ');
        assert(hankaku_of('ョ') =~= seq!['ｮ']);
    } else if k == 14 {
        reveal_strlit("ｯ");
        lemma_form_found(51, 0);
        assert(hankaku()[51].0 == 'ッ');
        assert(hankaku_of('ッ') =~= seq!['ｯ']);
    } else if k == 15 {
        reveal_strlit("ｰ");
        lemma_form_found(81, 0);
        assert(hankaku()[81].0 == 'ー');
        assert(hankaku_of('ー') =~= seq!['ｰ']);
    }
}

proof fn lemma_narrow_b(k: int)
    requires
        16 <= k < 32,
    ensures
        narrow_order().len() == 61,
        hankaku_of(narrow_order()[k]) == seq![(0xff61 + k) as u32 as char],
{
    reveal(hankaku);
    lemma_forms();
    reveal_strlit("。「」、・ヲァィゥェォャュョッーアイウエオカキクケコサシスセソタチツテトナニヌネノハヒフヘホマミムメモヤユヨラリルレロワン");
    if k == 16 {
        reveal_strlit("ｱ");
        lemma_form_found(0, 0);
        assert(hankaku()[0].0 == 'ア');
        assert(hankaku_of('ア') =~= seq!['ｱ']);
    } else if k == 17 {
        reveal_strlit("ｲ");
        lemma_form_found(1, 0);
        assert(hankaku()[1].0 == 'イ');
        assert(hankaku_of('イ') =~= seq!['ｲ']);
    } else if k == 18 {
        reveal_strlit("ｳ");
        lemma_form_found(2, 0);
        assert(hankaku()[2].0 == 'ウ');
        assert(hankaku_of('ウ') =~= seq!['ｳ']);
    } else if k == 19 {
        reveal_strlit("ｴ");
        lemma_form_found(3, 0);
        assert(hankaku()[3].0 == 'エ');
        assert(hankaku_of('エ') =~= seq!['ｴ']);
    } else if k == 20 {
        reveal_strlit("ｵ");
        lemma_form_found(4, 0);
        assert(hankaku()[4].0 == 'オ');
        assert(hankaku_of('オ') =~= seq!['ｵ']);
    } else if k == 21 {
        reveal_strlit("ｶ");
        lemma_form_found(5, 0);
        assert(hankaku()[5].0 == 'カ');
        assert(hankaku_of('カ') =~= seq!['ｶ']);
    } else if k == 22 {
        reveal_strlit("ｷ");
        lemma_form_found(6, 0);
        assert(hankaku()[6].0 == 'キ');
        assert(hankaku_of('キ') =~= seq!['ｷ']);
    } else if k == 23 {
        reveal_strlit("ｸ");
        lemma_form_found(7, 0);
        assert(hankaku()[7].0 == 'ク');
        assert(hankaku_of('ク') =~= seq!['ｸ']);
    } else if k == 24 {
        reveal_strlit("ｹ");
        lemma_form_found(8, 0);
        assert(hankaku()[8].0 == 'ケ');
        assert(hankaku_of('ケ') =~= seq!['ｹ']);
    } else if k == 25 {
        reveal_strlit("ｺ");
        lemma_form_found(9, 0);
        assert(hankaku()[9].0 == 'コ');
        assert(hankaku_of('コ') =~= seq!['ｺ']);
    } else if k == 26 {
        reveal_strlit("ｻ");
        lemma_form_found(10, 0);
        assert(hankaku()[10].0 == 'サ');
        assert(hankaku_of('サ') =~= seq!['ｻ']);
    } else if k == 27 {
        reveal_strlit("ｼ");
        lemma_form_found(11, 0);
        assert(hankaku()[11].0 == 'シ');
        assert(hankaku_of('シ') =~= seq!['ｼ']);
    } else if k == 28 {
        reveal_strlit("ｽ");
        lemma_form_found(12, 0);
        assert(hankaku()[12].0 == 'ス');
        assert(hankaku_of('ス') =~= seq!['ｽ']);
    } else if k == 29 {
        reveal_strlit("ｾ");
        lemma_form_found(13, 0);
        assert(hankaku()[13].0 == 'セ');
        assert(hankaku_of('セ') =~= seq!['ｾ']);
    } else if k == 30 {
        reveal_strlit("ｿ");
        lemma_form_found(14, 0);
        assert(hankaku()[14].0 == 'ソ');
        assert(hankaku_of('ソ') =~= seq!['ｿ']);
    } else if k == 31 {
        reveal_strlit("ﾀ");
        lemma_form_found(15, 0);
        assert(hankaku()[15].0 == 'タ');
        assert(hankaku_of('タ') =~= seq!['ﾀ']);
    }
}

proof fn lemma_narrow_c(k: int)
    requires
        32 <= k < 48,
    ensures
        narrow_order().len() == 61,
        hankaku_of(narrow_order()[k]) == seq![(0xff61 + k) as u32 as char],
{
    reveal(hankaku);
    lemma_forms();
    reveal_strlit("。「」、・ヲァィゥェォャュョッーアイウエオカキクケコサシスセソタチツテトナニヌネノハヒフヘホマミムメモヤユヨラリルレロワン");
    if k == 32 {
        reveal_strlit("ﾁ");
        lemma_form_found(16, 0);
        assert(hankaku()[16].0 == 'チ');
        assert(hankaku_of('チ') =~= seq!['ﾁ']);
    } else if k == 33 {
        reveal_strlit("ﾂ");
        lemma_form_found(17, 0);
        assert(hankaku()[17].0 == 'ツ');
        assert(hankaku_of('ツ') =~= seq!['ﾂ']);
    } else if k == 34 {
        reveal_strlit("ﾃ");
        lemma_form_found(18, 0);
        assert(hankaku()[18].0 == 'テ');
        assert(hankaku_of('テ') =~= seq!['ﾃ']);
    } else if k == 35 {
        reveal_strlit("ﾄ");
        lemma_form_found(19, 0);
        assert(hankaku()[19].0 == 'ト');
        assert(hankaku_of('ト') =~= seq!['ﾄ']);
    } else if k == 36 {
        reveal_strlit("ﾅ");
        lemma_form_found(20, 0);
        assert(hankaku()[20].0 == 'ナ');
        assert(hankaku_of('ナ') =~= seq!['ﾅ']);
    } else if k == 37 {
        reveal_strlit("ﾆ");
        lemma_form_found(21, 0);
        assert(hankaku()[21].0 == 'ニ');
        assert(hankaku_of('ニ') =~= seq!['ﾆ']);
    } else if k == 38 {
        reveal_strlit("ﾇ");
        lemma_form_found(22, 0);
        assert(hankaku()[22].0 == 'ヌ');
        assert(hankaku_of('ヌ') =~= seq!['ﾇ']);
    } else if k == 39 {
        reveal_strlit("ﾈ");
        lemma_form_found(23, 0);
        assert(hankaku()[23].0 == 'ネ');
        assert(hankaku_of('ネ') =~= seq!['ﾈ']);
    } else if k == 40 {
        reveal_strlit("ﾉ");
        lemma_form_found(24, 0);
        assert(hankaku()[24].0 == 'ノ');
        assert(hankaku_of('ノ') =~= seq!['ﾉ']);
    } else if k == 41 {
        reveal_strlit("ﾊ");
        lemma_form_found(25, 0);
        assert(hankaku()[25].0 == 'ハ');
        assert(hankaku_of('ハ') =~= seq!['ﾊ']);
    } else if k == 42 {
        reveal_strlit("ﾋ");
        lemma_form_found(26, 0);
        assert(hankaku()[26].0 == 'ヒ');
        assert(hankaku_of('ヒ') =~= seq!['ﾋ']);
    } else if k == 43 {
        reveal_strlit("ﾌ");
        lemma_form_found(27, 0);
        assert(hankaku()[27].0 == 'フ');
        assert(hankaku_of('フ') =~= seq!['ﾌ']);
    } else if k == 44 {
        reveal_strlit("ﾍ");
        lemma_form_found(28, 0);
        assert(hankaku()[28].0 == 'ヘ');
        assert(hankaku_of('ヘ') =~= seq!['ﾍ']);
    } else if k == 45 {
        reveal_strlit("ﾎ");
        lemma_form_found(29, 0);
        assert(hankaku()[29].0 == 'ホ');
        assert(hankaku_of('ホ') =~= seq!['ﾎ']);
    } else if k == 46 {
        reveal_strlit("ﾏ");
        lemma_form_found(30, 0);
        assert(hankaku()[30].0 == 'マ');
        assert(hankaku_of('マ') =~= seq!['ﾏ']);
    } else if k == 47 {
        reveal_strlit("ﾐ");
        lemma_form_found(31, 0);
        assert(hankaku()[31].0 == 'ミ');
        assert(hankaku_of('ミ') =~= seq!['ﾐ']);
    }
}

proof fn lemma_narrow_d(k: int)
    requires
        48 <= k < 61,
    ensures
        narrow_order().len() == 61,
        hankaku_of(narrow_order()[k]) == seq![(0xff61 + k) as u32 as char],
{
    reveal(hankaku);
    lemma_forms();
    reveal_strlit("。「」、・ヲァィゥェォャュョッーアイウエオカキクケコサシスセソタチツテトナニヌネノハヒフヘホマミムメモヤユヨラリルレロワン");
    if k == 48 {
        reveal_strlit("ﾑ");
        lemma_form_found(32, 0);
        assert(hankaku()[32].0 == 'ム');
        assert(hankaku_of('ム') =~= seq!['ﾑ']);
    } else if k == 49 {
        reveal_strlit("ﾒ");
        lemma_form_found(33, 0);
        assert(hankaku()[33].0 == 'メ');
        assert(hankaku_of('メ') =~= seq!['ﾒ']);
    } else if k == 50 {
        reveal_strlit("ﾓ");
        lemma_form_found(34, 0);
        assert(hankaku()[34].0 == 'モ');
        assert(hankaku_of('モ') =~= seq!['ﾓ']);
    } else if k == 51 {
        reveal_strlit("ﾔ");
        lemma_form_found(35, 0);
        assert(hankaku()[35].0 == 'ヤ');
        assert(hankaku_of('ヤ') =~= seq!['ﾔ']);
    } else if k == 52 {
        reveal_strlit("ﾕ");
        lemma_form_found(36, 0);
        assert(hankaku()[36].0 == 'ユ');
        assert(hankaku_of('ユ') =~= seq!['ﾕ']);
    } else if k == 53 {
        reveal_strlit("ﾖ");
        lemma_form_found(37, 0);
        assert(hankaku()[37].0 == 'ヨ');
        assert(hankaku_of('ヨ') =~= seq!['ﾖ']);
    } else if k == 54 {
        reveal_strlit("ﾗ");
        lemma_form_found(38, 0);
        assert(hankaku()[38].0 == 'ラ');
        assert(hankaku_of('ラ') =~= seq!['ﾗ']);
    } else if k == 55 {
        reveal_strlit("ﾘ");
        lemma_form_found(39, 0);
        assert(hankaku()[39].0 == 'リ');
        assert(hankaku_of('リ') =~= seq!['ﾘ']);
    } else if k == 56 {
        reveal_strlit("ﾙ");
        lemma_form_found(40, 0);
        assert(hankaku()[40].0 == 'ル');
        assert(hankaku_of('ル') =~= seq!['ﾙ']);
    } else if k == 57 {
        reveal_strlit("ﾚ");
        lemma_form_found(41, 0);
        assert(hankaku()[41].0 == 'レ');
        assert(hankaku_of('レ') =~= seq!['ﾚ']);
    } else if k == 58 {
        reveal_strlit("ﾛ");
        lemma_form_found(42, 0);
        assert(hankaku()[42].0 == 'ロ');
        assert(hankaku_of('ロ') =~= seq!['ﾛ']);
    } else if k == 59 {
        reveal_strlit("ﾜ");
        lemma_form_found(43, 0);
        assert(hankaku()[43].0 == 'ワ');
        assert(hankaku_of('ワ') =~= seq!['ﾜ']);
    } else if k == 60 {
        reveal_strlit("ﾝ");
        lemma_form_found(45, 0);
        assert(hankaku()[45].0 == 'ン');
        assert(hankaku_of('ン') =~= seq!['ﾝ']);
    }
}

/// The half-width forms stand one after the other in the list of characters, in the order of
/// their kana: each kana is written as the one at its place.
pub proof fn law_half_width_forms_keep_the_order(k: int)
    requires
        0 <= k < narrow_order().len(),
    ensures
        hankaku_of(narrow_order()[k]) == seq![(0xff61 + k) as u32 as char],
        narrow_order().len() == 61,
{
    reveal_strlit("。「」、・ヲァィゥェォャュョッーアイウエオカキクケコサシスセソタチツテトナニヌネノハヒフヘホマミムメモヤユヨラリルレロワン");
    if k < 16 {
        lemma_narrow_a(k);
    } else if k < 32 {
        lemma_narrow_b(k);
    } else if k < 48 {
        lemma_narrow_c(k);
    } else if k < 61 {
        lemma_narrow_d(k);
    }
}

/// The kana with a voiced mark; each stands right behind the one without it in the list of
/// characters.
pub open spec fn voiced() -> Seq<char> {
    "ガギグゲゴザジズゼゾダヂヅデドバビブベボ"@
}

/// The kana with a half-voiced mark; each stands two behind the one without it.
pub open spec fn half_voiced() -> Seq<char> {
    "パピプペポ"@
}

/// A voiced kana is written as the one without the mark and the mark, and so is a half-voiced
/// one.
pub proof fn law_marks_are_characters_of_their_own(k: int)
    ensures
        0 <= k < voiced().len() ==> hankaku_of(voiced()[k]) == hankaku_of(
            (voiced()[k] as u32 - 1) as char,
        ) + "ﾞ"@,
        0 <= k < half_voiced().len() ==> hankaku_of(half_voiced()[k]) == hankaku_of(
            (half_voiced()[k] as u32 - 2) as char,
        ) + "ﾟ"@,
        hankaku_of('ヴ') == hankaku_of('ウ') + "ﾞ"@,
{
    reveal_strlit("ガギグゲゴザジズゼゾダヂヅデドバビブベボ");
    reveal_strlit("パピプペポ");
    if 0 <= k < voiced().len() {
        if k < 10 {
            lemma_voiced_a(k);
        } else {
            lemma_voiced_b(k);
        }
    }
    if 0 <= k < half_voiced().len() {
        lemma_half_voiced(k);
    }
    lemma_vu();
}

proof fn lemma_voiced_a(k: int)
    requires
        0 <= k < 10,
        k < voiced().len(),
    ensures
        hankaku_of(voiced()[k]) == hankaku_of((voiced()[k] as u32 - 1) as char) + "ﾞ"@,
{
    reveal(hankaku);
    lemma_forms();
    reveal_strlit("ガギグゲゴザジズゼゾダヂヅデドバビブベボ");
    reveal_strlit("ﾞ");
    if k == 0 {
        reveal_strlit("ｶﾞ");
        reveal_strlit("ｶ");
        lemma_form_found(55, 0);
        lemma_form_found(5, 0);
        assert(hankaku()[55].0 == 'ガ' && hankaku()[5].0 == 'カ');
        assert(hankaku_of('ガ') =~= hankaku_of('カ') + "ﾞ"@);
    } else if k == 1 {
        reveal_strlit("ｷﾞ");
        reveal_strlit("ｷ");
        lemma_form_found(56, 0);
        lemma_form_found(6, 0);
        assert(hankaku()[56].0 == 'ギ' && hankaku()[6].0 == 'キ');
        assert(hankaku_of('ギ') =~= hankaku_of('キ') + "ﾞ"@);
    } else if k == 2 {
        reveal_strlit("ｸﾞ");
        reveal_strlit("ｸ");
        lemma_form_found(57, 0);
        lemma_form_found(7, 0);
        assert(hankaku()[57].0 == 'グ' && hankaku()[7].0 == 'ク');
        assert(hankaku_of('グ') =~= hankaku_of('ク') + "ﾞ"@);
    } else if k == 3 {
        reveal_strlit("ｹﾞ");
        reveal_strlit("ｹ");
        lemma_form_found(58, 0);
        lemma_form_found(8, 0);
        assert(hankaku()[58].0 == 'ゲ' && hankaku()[8].0 == 'ケ');
        assert(hankaku_of('ゲ') =~= hankaku_of('ケ') + "ﾞ"@);
    } else if k == 4 {
        reveal_strlit("ｺﾞ");
        reveal_strlit("ｺ");
        lemma_form_found(59, 0);
        lemma_form_found(9, 0);
        assert(hankaku()[59].0 == 'ゴ' && hankaku()[9].0 == 'コ');
        assert(hankaku_of('ゴ') =~= hankaku_of('コ') + "ﾞ"@);
    } else if k == 5 {
        reveal_strlit("ｻﾞ");
        reveal_strlit("ｻ");
        lemma_form_found(60, 0);
        lemma_form_found(10, 0);
        assert(hankaku()[60].0 == 'ザ' && hankaku()[10].0 == 'サ');
        assert(hankaku_of('ザ') =~= hankaku_of('サ') + "ﾞ"@);
    } else if k == 6 {
        reveal_strlit("ｼﾞ");
        reveal_strlit("ｼ");
        lemma_form_found(61, 0);
        lemma_form_found(11, 0);
        assert(hankaku()[61].0 == 'ジ' && hankaku()[11].0 == 'シ');
        assert(hankaku_of('ジ') =~= hankaku_of('シ') + "ﾞ"@);
    } else if k == 7 {
        reveal_strlit("ｽﾞ");
        reveal_strlit("ｽ");
        lemma_form_found(62, 0);
        lemma_form_found(12, 0);
        assert(hankaku()[62].0 == 'ズ' && hankaku()[12].0 == 'ス');
        assert(hankaku_of('ズ') =~= hankaku_of('ス') + "ﾞ"@);
    } else if k == 8 {
        reveal_strlit("ｾﾞ");
        reveal_strlit("ｾ");
        lemma_form_found(63, 0);
        lemma_form_found(13, 0);
        assert(hankaku()[63].0 == 'ゼ' && hankaku()[13].0 == 'セ');
        assert(hankaku_of('ゼ') =~= hankaku_of('セ') + "ﾞ"@);
    } else if k == 9 {
        reveal_strlit("ｿﾞ");
        reveal_strlit("ｿ");
        lemma_form_found(64, 0);
        lemma_form_found(14, 0);
        assert(hankaku()[64].0 == 'ゾ' && hankaku()[14].0 == 'ソ');
        assert(hankaku_of('ゾ') =~= hankaku_of('ソ') + "ﾞ"@);
    }
}

proof fn lemma_voiced_b(k: int)
    requires
        10 <= k < 20,
        k < voiced().len(),
    ensures
        hankaku_of(voiced()[k]) == hankaku_of((voiced()[k] as u32 - 1) as char) + "ﾞ"@,
{
    reveal(hankaku);
    lemma_forms();
    reveal_strlit("ガギグゲゴザジズゼゾダヂヅデドバビブベボ");
    reveal_strlit("ﾞ");
    if k == 10 {
        reveal_strlit("ﾀﾞ");
        reveal_strlit("ﾀ");
        lemma_form_found(65, 0);
        lemma_form_found(15, 0);
        assert(hankaku()[65].0 == 'ダ' && hankaku()[15].0 == 'タ');
        assert(hankaku_of('ダ') =~= hankaku_of('タ') + "ﾞ"@);
    } else if k == 11 {
        reveal_strlit("ﾁﾞ");
        reveal_strlit("ﾁ");
        lemma_form_found(66, 0);
        lemma_form_found(16, 0);
        assert(hankaku()[66].0 == 'ヂ' && hankaku()[16].0 == 'チ');
        assert(hankaku_of('ヂ') =~= hankaku_of('チ') + "ﾞ"@);
    } else if k == 12 {
        reveal_strlit("ﾂﾞ");
        reveal_strlit("ﾂ");
        lemma_form_found(67, 0);
        lemma_form_found(17, 0);
        assert(hankaku()[67].0 == 'ヅ' && hankaku()[17].0 == 'ツ');
        assert(hankaku_of('ヅ') =~= hankaku_of('ツ') + "ﾞ"@);
    } else if k == 13 {
        reveal_strlit("ﾃﾞ");
        reveal_strlit("ﾃ");
        lemma_form_found(68, 0);
        lemma_form_found(18, 0);
        assert(hankaku()[68].0 == 'デ' && hankaku()[18].0 == 'テ');
        assert(hankaku_of('デ') =~= hankaku_of('テ') + "ﾞ"@);
    } else if k == 14 {
        reveal_strlit("ﾄﾞ");
        reveal_strlit("ﾄ");
        lemma_form_found(69, 0);
        lemma_form_found(19, 0);
        assert(hankaku()[69].0 == 'ド' && hankaku()[19].0 == 'ト');
        assert(hankaku_of('ド') =~= hankaku_of('ト') + "ﾞ"@);
    } else if k == 15 {
        reveal_strlit("ﾊﾞ");
        reveal_strlit("ﾊ");
        lemma_form_found(70, 0);
        lemma_form_found(25, 0);
        assert(hankaku()[70].0 == 'バ' && hankaku()[25].0 == 'ハ');
        assert(hankaku_of('バ') =~= hankaku_of('ハ') + "ﾞ"@);
    } else if k == 16 {
        reveal_strlit("ﾋﾞ");
        reveal_strlit("ﾋ");
        lemma_form_found(71, 0);
        lemma_form_found(26, 0);
        assert(hankaku()[71].0 == 'ビ' && hankaku()[26].0 == 'ヒ');
        assert(hankaku_of('ビ') =~= hankaku_of('ヒ') + "ﾞ"@);
    } else if k == 17 {
        reveal_strlit("ﾌﾞ");
        reveal_strlit("ﾌ");
        lemma_form_found(72, 0);
        lemma_form_found(27, 0);
        assert(hankaku()[72].0 == 'ブ' && hankaku()[27].0 == 'フ');
        assert(hankaku_of('ブ') =~= hankaku_of('フ') + "ﾞ"@);
    } else if k == 18 {
        reveal_strlit("ﾍﾞ");
        reveal_strlit("ﾍ");
        lemma_form_found(73, 0);
        lemma_form_found(28, 0);
        assert(hankaku()[73].0 == 'ベ' && hankaku()[28].0 == 'ヘ');
        assert(hankaku_of('ベ') =~= hankaku_of('ヘ') + "ﾞ"@);
    } else if k == 19 {
        reveal_strlit("ﾎﾞ");
        reveal_strlit("ﾎ");
        lemma_form_found(74, 0);
        lemma_form_found(29, 0);
        assert(hankaku()[74].0 == 'ボ' && hankaku()[29].0 == 'ホ');
        assert(hankaku_of('ボ') =~= hankaku_of('ホ') + "ﾞ"@);
    }
}

proof fn lemma_half_voiced(k: int)
    requires
        0 <= k < 5,
        k < half_voiced().len(),
    ensures
        hankaku_of(half_voiced()[k]) == hankaku_of((half_voiced()[k] as u32 - 2) as char) + "ﾟ"@,
{
    reveal(hankaku);
    lemma_forms();
    reveal_strlit("パピプペポ");
    reveal_strlit("ﾟ");
    if k == 0 {
        reveal_strlit("ﾊﾟ");
        reveal_strlit("ﾊ");
        lemma_form_found(75, 0);
        lemma_form_found(25, 0);
        assert(hankaku()[75].0 == 'パ' && hankaku()[25].0 == 'ハ');
        assert(hankaku_of('パ') =~= hankaku_of('ハ') + "ﾟ"@);
    } else if k == 1 {
        reveal_strlit("ﾋﾟ");
        reveal_strlit("ﾋ");
        lemma_form_found(76, 0);
        lemma_form_found(26, 0);
        assert(hankaku()[76].0 == 'ピ' && hankaku()[26].0 == 'ヒ');
        assert(hankaku_of('ピ') =~= hankaku_of('ヒ') + "ﾟ"@);
    } else if k == 2 {
        reveal_strlit("ﾌﾟ");
        reveal_strlit("ﾌ");
        lemma_form_found(77, 0);
        lemma_form_found(27, 0);
        assert(hankaku()[77].0 == 'プ' && hankaku()[27].0 == 'フ');
        assert(hankaku_of('プ') =~= hankaku_of('フ') + "ﾟ"@);
    } else if k == 3 {
        reveal_strlit("ﾍﾟ");
        reveal_strlit("ﾍ");
        lemma_form_found(78, 0);
        lemma_form_found(28, 0);
        assert(hankaku()[78].0 == 'ペ' && hankaku()[28].0 == 'ヘ');
        assert(hankaku_of('ペ') =~= hankaku_of('ヘ') + "ﾟ"@);
    } else if k == 4 {
        reveal_strlit("ﾎﾟ");
        reveal_strlit("ﾎ");
        lemma_form_found(79, 0);
        lemma_form_found(29, 0);
        assert(hankaku()[79].0 == 'ポ' && hankaku()[29].0 == 'ホ');
        assert(hankaku_of('ポ') =~= hankaku_of('ホ') + "ﾟ"@);
    }
}

proof fn lemma_vu()
    ensures
        hankaku_of('ヴ') == hankaku_of('ウ') + "ﾞ"@,
{
    reveal(hankaku);
    lemma_forms();
    reveal_strlit("ﾞ");
    reveal_strlit("ｳﾞ");
    reveal_strlit("ｳ");
    lemma_form_found(80, 0);
    lemma_form_found(2, 0);
    assert(hankaku()[80].0 == 'ヴ' && hankaku()[2].0 == 'ウ');
    assert(hankaku_of('ヴ') =~= hankaku_of('ウ') + "ﾞ"@);
}

/// What has no half-width form stays as it is.
pub proof fn law_other_characters_stay_wide(c: char)
    requires
        !narrow_order().contains(c),
        !voiced().contains(c),
        !half_voiced().contains(c),
        c != 'ヴ',
    ensures
        hankaku_of(c) == seq![c],
{
    reveal_strlit("。「」、・ヲァィゥェォャュョッーアイウエオカキクケコサシスセソタチツテトナニヌネノハヒフヘホマミムメモヤユヨラリルレロワン");
    reveal_strlit("ガギグゲゴザジズゼゾダヂヅデドバビブベボ");
    reveal_strlit("パピプペポ");
    lemma_no_form(c, 0);
}

proof fn lemma_no_form(c: char, j: int)
    requires
        0 <= j <= hankaku().len(),
        !narrow_order().contains(c),
        !voiced().contains(c),
        !half_voiced().contains(c),
        c != 'ヴ',
    ensures
        hankaku_from(c, j) == seq![c],
    decreases hankaku().len() - j,
{
    lemma_forms();
    if j < hankaku().len() {
        lemma_known(j);
        lemma_no_form(c, j + 1);
    }
}

/// Every row is about one of these kana.
proof fn lemma_known(j: int)
    requires
        0 <= j < hankaku().len(),
    ensures
        ({
            let c = hankaku()[j].0;
            narrow_order().contains(c) || voiced().contains(c) || half_voiced().contains(c) || c == 'ヴ'
        }),
{
    lemma_forms();
    reveal(hankaku);
    reveal_strlit("。「」、・ヲァィゥェォャュョッーアイウエオカキクケコサシスセソタチツテトナニヌネノハヒフヘホマミムメモヤユヨラリルレロワン");
    reveal_strlit("ガギグゲゴザジズゼゾダヂヅデドバビブベボ");
    reveal_strlit("パピプペポ");
    if j == 0 {
        assert(narrow_order()[16] == hankaku()[0].0);
    } else if j == 1 {
        assert(narrow_order()[17] == hankaku()[1].0);
    } else if j == 2 {
        assert(narrow_order()[18] == hankaku()[2].0);
    } else if j == 3 {
        assert(narrow_order()[19] == hankaku()[3].0);
    } else if j == 4 {
        assert(narrow_order()[20] == hankaku()[4].0);
    } else if j == 5 {
        assert(narrow_order()[21] == hankaku()[5].0);
    } else if j == 6 {
        assert(narrow_order()[22] == hankaku()[6].0);
    } else if j == 7 {
        assert(narrow_order()[23] == hankaku()[7].0);
    } else if j == 8 {
        assert(narrow_order()[24] == hankaku()[8].0);
    } else if j == 9 {
        assert(narrow_order()[25] == hankaku()[9].0);
    } else if j == 10 {
        assert(narrow_order()[26] == hankaku()[10].0);
    } else if j == 11 {
        assert(narrow_order()[27] == hankaku()[11].0);
    } else if j == 12 {
        assert(narrow_order()[28] == hankaku()[12].0);
    } else if j == 13 {
        assert(narrow_order()[29] == hankaku()[13].0);
    } else if j == 14 {
        assert(narrow_order()[30] == hankaku()[14].0);
    } else if j == 15 {
        assert(narrow_order()[31] == hankaku()[15].0);
    } else if j == 16 {
        assert(narrow_order()[32] == hankaku()[16].0);
    } else if j == 17 {
        assert(narrow_order()[33] == hankaku()[17].0);
    } else if j == 18 {
        assert(narrow_order()[34] == hankaku()[18].0);
    } else if j == 19 {
        assert(narrow_order()[35] == hankaku()[19].0);
    } else if j == 20 {
        assert(narrow_order()[36] == hankaku()[20].0);
    } else if j == 21 {
        assert(narrow_order()[37] == hankaku()[21].0);
    } else if j == 22 {
        assert(narrow_order()[38] == hankaku()[22].0);
    } else if j == 23 {
        assert(narrow_order()[39] == hankaku()[23].0);
    } else if j == 24 {
        assert(narrow_order()[40] == hankaku()[24].0);
    } else if j == 25 {
        assert(narrow_order()[41] == hankaku()[25].0);
    } else if j == 26 {
        assert(narrow_order()[42] == hankaku()[26].0);
    } else if j == 27 {
        assert(narrow_order()[43] == hankaku()[27].0);
    } else if j == 28 {
        assert(narrow_order()[44] == hankaku()[28].0);
    } else if j == 29 {
        assert(narrow_order()[45] == hankaku()[29].0);
    } else if j == 30 {
        assert(narrow_order()[46] == hankaku()[30].0);
    } else if j == 31 {
        assert(narrow_order()[47] == hankaku()[31].0);
    } else if j == 32 {
        assert(narrow_order()[48] == hankaku()[32].0);
    } else if j == 33 {
        assert(narrow_order()[49] == hankaku()[33].0);
    } else if j == 34 {
        assert(narrow_order()[50] == hankaku()[34].0);
    } else if j == 35 {
        assert(narrow_order()[51] == hankaku()[35].0);
    } else if j == 36 {
        assert(narrow_order()[52] == hankaku()[36].0);
    } else if j == 37 {
        assert(narrow_order()[53] == hankaku()[37].0);
    } else if j == 38 {
        assert(narrow_order()[54] == hankaku()[38].0);
    } else if j == 39 {
        assert(narrow_order()[55] == hankaku()[39].0);
    } else if j == 40 {
        assert(narrow_order()[56] == hankaku()[40].0);
    } else if j == 41 {
        assert(narrow_order()[57] == hankaku()[41].0);
    } else if j == 42 {
        assert(narrow_order()[58] == hankaku()[42].0);
    } else if j == 43 {
        assert(narrow_order()[59] == hankaku()[43].0);
    } else if j == 44 {
        assert(narrow_order()[5] == hankaku()[44].0);
    } else if j == 45 {
        assert(narrow_order()[60] == hankaku()[45].0);
    } else if j == 46 {
        assert(narrow_order()[6] == hankaku()[46].0);
    } else if j == 47 {
        assert(narrow_order()[7] == hankaku()[47].0);
    } else if j == 48 {
        assert(narrow_order()[8] == hankaku()[48].0);
    } else if j == 49 {
        assert(narrow_order()[9] == hankaku()[49].0);
    } else if j == 50 {
        assert(narrow_order()[10] == hankaku()[50].0);
    } else if j == 51 {
        assert(narrow_order()[14] == hankaku()[51].0);
    } else if j == 52 {
        assert(narrow_order()[11] == hankaku()[52].0);
    } else if j == 53 {
        assert(narrow_order()[12] == hankaku()[53].0);
    } else if j == 54 {
        assert(narrow_order()[13] == hankaku()[54].0);
    } else if j == 55 {
        assert(voiced()[0] == hankaku()[55].0);
    } else if j == 56 {
        assert(voiced()[1] == hankaku()[56].0);
    } else if j == 57 {
        assert(voiced()[2] == hankaku()[57].0);
    } else if j == 58 {
        assert(voiced()[3] == hankaku()[58].0);
    } else if j == 59 {
        assert(voiced()[4] == hankaku()[59].0);
    } else if j == 60 {
        assert(voiced()[5] == hankaku()[60].0);
    } else if j == 61 {
        assert(voiced()[6] == hankaku()[61].0);
    } else if j == 62 {
        assert(voiced()[7] == hankaku()[62].0);
    } else if j == 63 {
        assert(voiced()[8] == hankaku()[63].0);
    } else if j == 64 {
        assert(voiced()[9] == hankaku()[64].0);
    } else if j == 65 {
        assert(voiced()[10] == hankaku()[65].0);
    } else if j == 66 {
        assert(voiced()[11] == hankaku()[66].0);
    } else if j == 67 {
        assert(voiced()[12] == hankaku()[67].0);
    } else if j == 68 {
        assert(voiced()[13] == hankaku()[68].0);
    } else if j == 69 {
        assert(voiced()[14] == hankaku()[69].0);
    } else if j == 70 {
        assert(voiced()[15] == hankaku()[70].0);
    } else if j == 71 {
        assert(voiced()[16] == hankaku()[71].0);
    } else if j == 72 {
        assert(voiced()[17] == hankaku()[72].0);
    } else if j == 73 {
        assert(voiced()[18] == hankaku()[73].0);
    } else if j == 74 {
        assert(voiced()[19] == hankaku()[74].0);
    } else if j == 75 {
        assert(half_voiced()[0] == hankaku()[75].0);
    } else if j == 76 {
        assert(half_voiced()[1] == hankaku()[76].0);
    } else if j == 77 {
        assert(half_voiced()[2] == hankaku()[77].0);
    } else if j == 78 {
        assert(half_voiced()[3] == hankaku()[78].0);
    } else if j == 79 {
        assert(half_voiced()[4] == hankaku()[79].0);
    } else if j == 81 {
        assert(narrow_order()[15] == hankaku()[81].0);
    } else if j == 82 {
        assert(narrow_order()[3] == hankaku()[82].0);
    } else if j == 83 {
        assert(narrow_order()[0] == hankaku()[83].0);
    } else if j == 84 {
        assert(narrow_order()[1] == hankaku()[84].0);
    } else if j == 85 {
        assert(narrow_order()[2] == hankaku()[85].0);
    } else if j == 86 {
        assert(narrow_order()[4] == hankaku()[86].0);
    }
}

/// The place of a vowel in the order of the kana.
pub open spec fn vowel(c: char) -> Option<int> {
    match c {
        'a' => Some(0),
        'i' => Some(1),
        'u' => Some(2),
        'e' => Some(3),
        'o' => Some(4),
        _ => None,
    }
}

/// The five kana of a consonant, in the order of the vowels.
pub open spec fn five(c: char) -> Option<Seq<char>> {
    match c {
        'k' => Some(seq!['か', 'き', 'く', 'け', 'こ']),
        'g' => Some(seq!['が', 'ぎ', 'ぐ', 'げ', 'ご']),
        's' => Some(seq!['さ', 'し', 'す', 'せ', 'そ']),
        'z' => Some(seq!['ざ', 'じ', 'ず', 'ぜ', 'ぞ']),
        't' => Some(seq!['た', 'ち', 'つ', 'て', 'と']),
        'd' => Some(seq!['だ', 'ぢ', 'づ', 'で', 'ど']),
        'n' => Some(seq!['な', 'に', 'ぬ', 'ね', 'の']),
        'h' => Some(seq!['は', 'ひ', 'ふ', 'へ', 'ほ']),
        'b' => Some(seq!['ば', 'び', 'ぶ', 'べ', 'ぼ']),
        'p' => Some(seq!['ぱ', 'ぴ', 'ぷ', 'ぺ', 'ぽ']),
        'm' => Some(seq!['ま', 'み', 'む', 'め', 'も']),
        'r' => Some(seq!['ら', 'り', 'る', 'れ', 'ろ']),
        _ => None,
    }
}

/// The small kana of the vowels.
pub open spec fn small_vowel(v: int) -> char {
    seq!['ぁ', 'ぃ', 'ぅ', 'ぇ', 'ぉ'][v]
}

/// The small kana that contract a syllable.
pub open spec fn small_y(v: int) -> char {
    seq!['ゃ', 'ぃ', 'ゅ', 'ぇ', 'ょ'][v]
}

/// A kana alone before one vowel, and with a small kana before the others.
pub open spec fn but_for(kana: char, alone: int, v: int, small: char) -> Seq<char> {
    if v == alone {
        seq![kana]
    } else {
        seq![kana, small]
    }
}

/// What a consonant, or a group of them, and a vowel spell.
pub open spec fn syllable(p: Seq<char>, v: int) -> Option<Seq<char>> {
    if p.len() == 0 {
        Some(seq![seq!['あ', 'い', 'う', 'え', 'お'][v]])
    } else if p.len() == 1 {
        match five(p[0]) {
            Some(row) => Some(seq![row[v]]),
            None => match p[0] {
                'y' => if v == 3 {
                    Some(seq!['い', 'ぇ'])
                } else {
                    Some(seq![seq!['や', 'い', 'ゆ', 'え', 'よ'][v]])
                },
                'w' => Some(seq![seq!['わ', 'ゐ', 'う', 'ゑ', 'を'][v]]),
                'j' => Some(but_for('じ', 1, v, small_y(v))),
                'f' => Some(but_for('ふ', 2, v, small_vowel(v))),
                'v' => Some(but_for('ゔ', 2, v, small_vowel(v))),
                'x' => Some(seq![small_vowel(v)]),
                _ => None,
            },
        }
    } else if p.len() == 2 && p[1] == 'y' {
        match five(p[0]) {
            Some(row) => Some(seq![row[1], small_y(v)]),
            None => match p[0] {
                'j' => Some(seq!['じ', small_y(v)]),
                'f' => Some(seq!['ふ', small_y(v)]),
                'x' => Some(seq![small_y(v)]),
                _ => None,
            },
        }
    } else if p.len() == 2 {
        if p[0] == 's' && p[1] == 'h' {
            Some(but_for('し', 1, v, small_y(v)))
        } else if p[0] == 'c' && p[1] == 'h' {
            Some(but_for('ち', 1, v, small_y(v)))
        } else if p[0] == 't' && p[1] == 's' {
            Some(but_for('つ', 2, v, small_vowel(v)))
        } else if p[0] == 't' && p[1] == 'h' {
            Some(seq!['て', small_y(v)])
        } else if p[0] == 'd' && p[1] == 'h' {
            Some(seq!['で', small_y(v)])
        } else if p[0] == 't' && p[1] == 'w' {
            Some(seq!['と', small_vowel(v)])
        } else if p[0] == 'd' && p[1] == 'w' {
            Some(seq!['ど', small_vowel(v)])
        } else if p[0] == 'w' && p[1] == 'h' {
            Some(seq!['う', small_vowel(v)])
        } else if p[0] == 'x' && p[1] == 't' && v == 2 {
            Some(seq!['っ'])
        } else if p[0] == 'x' && p[1] == 'w' && v == 0 {
            Some(seq!['ゎ'])
        } else if p[0] == 'x' && p[1] == 'k' && v == 0 {
            Some(seq!['ヵ'])
        } else if p[0] == 'x' && p[1] == 'k' && v == 3 {
            Some(seq!['ヶ'])
        } else {
            None
        }
    } else if p.len() == 3 && p[0] == 'x' && p[1] == 't' && p[2] == 's' && v == 2 {
        Some(seq!['っ'])
    } else {
        None
    }
}

/// The sign that a key stands for, alone or behind a z.
pub open spec fn sign(c: char, z: bool) -> Option<char> {
    match c {
        '-' => Some(if z { '〜' } else { 'ー' }),
        '.' => Some(if z { '…' } else { '。' }),
        ',' => Some(if z { '‥' } else { '、' }),
        '[' => Some(if z { '『' } else { '「' }),
        ']' => Some(if z { '』' } else { '」' }),
        '/' => if z { Some('・') } else { None },
        'h' => if z { Some('←') } else { None },
        'j' => if z { Some('↓') } else { None },
        'k' => if z { Some('↑') } else { None },
        'l' => if z { Some('→') } else { None },
        _ => None,
    }
}

/// What a spelling stands for.
pub open spec fn said_by(key: Seq<char>) -> Option<Seq<char>> {
    if key.len() > 0 && vowel(key.last()) is Some {
        syllable(key.drop_last(), vowel(key.last())->0)
    } else if key.len() == 2 && key[0] == 'n' && (key[1] == 'n' || key[1] == '\'') {
        Some(seq!['ん'])
    } else if key.len() == 1 && sign(key[0], false) is Some {
        Some(seq![sign(key[0], false)->0])
    } else if key.len() == 2 && key[0] == 'z' && sign(key[1], true) is Some {
        Some(seq![sign(key[1], true)->0])
    } else {
        None
    }
}

/// Whether a row of the spellings gives what its spelling stands for.
spec fn right(row: (&'static str, &'static str)) -> bool {
    said_by(row.0@) == Some(row.1@)
}

proof fn lemma_rows_a()
    ensures
        standard_list().len() == 217,
        forall|i: int| 0 <= i < 14 ==> right(#[trigger] standard_list()[i]),
{
    reveal(standard_list);
    assert(right(standard_list()[0])) by {
        reveal_strlit("a");
        reveal_strlit("あ");
        assert("a"@.drop_last() =~= seq![]);
        assert(said_by("a"@)->0 =~= "あ"@);
    }
    assert(right(standard_list()[1])) by {
        reveal_strlit("i");
        reveal_strlit("い");
        assert("i"@.drop_last() =~= seq![]);
        assert(said_by("i"@)->0 =~= "い"@);
    }
    assert(right(standard_list()[2])) by {
        reveal_strlit("u");
        reveal_strlit("う");
        assert("u"@.drop_last() =~= seq![]);
        assert(said_by("u"@)->0 =~= "う"@);
    }
    assert(right(standard_list()[3])) by {
        reveal_strlit("e");
        reveal_strlit("え");
        assert("e"@.drop_last() =~= seq![]);
        assert(said_by("e"@)->0 =~= "え"@);
    }
    assert(right(standard_list()[4])) by {
        reveal_strlit("o");
        reveal_strlit("お");
        assert("o"@.drop_last() =~= seq![]);
        assert(said_by("o"@)->0 =~= "お"@);
    }
    assert(right(standard_list()[5])) by {
        reveal_strlit("ka");
        reveal_strlit("か");
        assert("ka"@.drop_last() =~= seq!['k']);
        assert(said_by("ka"@)->0 =~= "か"@);
    }
    assert(right(standard_list()[6])) by {
        reveal_strlit("ki");
        reveal_strlit("き");
        assert("ki"@.drop_last() =~= seq!['k']);
        assert(said_by("ki"@)->0 =~= "き"@);
    }
    assert(right(standard_list()[7])) by {
        reveal_strlit("ku");
        reveal_strlit("く");
        assert("ku"@.drop_last() =~= seq!['k']);
        assert(said_by("ku"@)->0 =~= "く"@);
    }
    assert(right(standard_list()[8])) by {
        reveal_strlit("ke");
        reveal_strlit("け");
        assert("ke"@.drop_last() =~= seq!['k']);
        assert(said_by("ke"@)->0 =~= "け"@);
    }
    assert(right(standard_list()[9])) by {
        reveal_strlit("ko");
        reveal_strlit("こ");
        assert("ko"@.drop_last() =~= seq!['k']);
        assert(said_by("ko"@)->0 =~= "こ"@);
    }
    assert(right(standard_list()[10])) by {
        reveal_strlit("kya");
        reveal_strlit("きゃ");
        assert("kya"@.drop_last() =~= seq!['k', 'y']);
        assert(said_by("kya"@)->0 =~= "きゃ"@);
    }
    assert(right(standard_list()[11])) by {
        reveal_strlit("kyi");
        reveal_strlit("きぃ");
        assert("kyi"@.drop_last() =~= seq!['k', 'y']);
        assert(said_by("kyi"@)->0 =~= "きぃ"@);
    }
    assert(right(standard_list()[12])) by {
        reveal_strlit("kyu");
        reveal_strlit("きゅ");
        assert("kyu"@.drop_last() =~= seq!['k', 'y']);
        assert(said_by("kyu"@)->0 =~= "きゅ"@);
    }
    assert(right(standard_list()[13])) by {
        reveal_strlit("kye");
        reveal_strlit("きぇ");
        assert("kye"@.drop_last() =~= seq!['k', 'y']);
        assert(said_by("kye"@)->0 =~= "きぇ"@);
    }
    assert forall|i: int| 0 <= i < 14 implies right(#[trigger] standard_list()[i]) by {
        assert(i == 0 || i == 1 || i == 2 || i == 3 || i == 4 || i == 5 || i == 6 || i == 7 || i == 8 || i == 9 || i == 10 || i == 11 || i == 12 || i == 13);
    }
}

proof fn lemma_rows_b()
    ensures
        standard_list().len() == 217,
        forall|i: int| 14 <= i < 28 ==> right(#[trigger] standard_list()[i]),
{
    reveal(standard_list);
    assert(right(standard_list()[14])) by {
        reveal_strlit("kyo");
        reveal_strlit("きょ");
        assert("kyo"@.drop_last() =~= seq!['k', 'y']);
        assert(said_by("kyo"@)->0 =~= "きょ"@);
    }
    assert(right(standard_list()[15])) by {
        reveal_strlit("ga");
        reveal_strlit("が");
        assert("ga"@.drop_last() =~= seq!['g']);
        assert(said_by("ga"@)->0 =~= "が"@);
    }
    assert(right(standard_list()[16])) by {
        reveal_strlit("gi");
        reveal_strlit("ぎ");
        assert("gi"@.drop_last() =~= seq!['g']);
        assert(said_by("gi"@)->0 =~= "ぎ"@);
    }
    assert(right(standard_list()[17])) by {
        reveal_strlit("gu");
        reveal_strlit("ぐ");
        assert("gu"@.drop_last() =~= seq!['g']);
        assert(said_by("gu"@)->0 =~= "ぐ"@);
    }
    assert(right(standard_list()[18])) by {
        reveal_strlit("ge");
        reveal_strlit("げ");
        assert("ge"@.drop_last() =~= seq!['g']);
        assert(said_by("ge"@)->0 =~= "げ"@);
    }
    assert(right(standard_list()[19])) by {
        reveal_strlit("go");
        reveal_strlit("ご");
        assert("go"@.drop_last() =~= seq!['g']);
        assert(said_by("go"@)->0 =~= "ご"@);
    }
    assert(right(standard_list()[20])) by {
        reveal_strlit("gya");
        reveal_strlit("ぎゃ");
        assert("gya"@.drop_last() =~= seq!['g', 'y']);
        assert(said_by("gya"@)->0 =~= "ぎゃ"@);
    }
    assert(right(standard_list()[21])) by {
        reveal_strlit("gyi");
        reveal_strlit("ぎぃ");
        assert("gyi"@.drop_last() =~= seq!['g', 'y']);
        assert(said_by("gyi"@)->0 =~= "ぎぃ"@);
    }
    assert(right(standard_list()[22])) by {
        reveal_strlit("gyu");
        reveal_strlit("ぎゅ");
        assert("gyu"@.drop_last() =~= seq!['g', 'y']);
        assert(said_by("gyu"@)->0 =~= "ぎゅ"@);
    }
    assert(right(standard_list()[23])) by {
        reveal_strlit("gye");
        reveal_strlit("ぎぇ");
        assert("gye"@.drop_last() =~= seq!['g', 'y']);
        assert(said_by("gye"@)->0 =~= "ぎぇ"@);
    }
    assert(right(standard_list()[24])) by {
        reveal_strlit("gyo");
        reveal_strlit("ぎょ");
        assert("gyo"@.drop_last() =~= seq!['g', 'y']);
        assert(said_by("gyo"@)->0 =~= "ぎょ"@);
    }
    assert(right(standard_list()[25])) by {
        reveal_strlit("sa");
        reveal_strlit("さ");
        assert("sa"@.drop_last() =~= seq!['s']);
        assert(said_by("sa"@)->0 =~= "さ"@);
    }
    assert(right(standard_list()[26])) by {
        reveal_strlit("si");
        reveal_strlit("し");
        assert("si"@.drop_last() =~= seq!['s']);
        assert(said_by("si"@)->0 =~= "し"@);
    }
    assert(right(standard_list()[27])) by {
        reveal_strlit("shi");
        reveal_strlit("し");
        assert("shi"@.drop_last() =~= seq!['s', 'h']);
        assert(said_by("shi"@)->0 =~= "し"@);
    }
    assert forall|i: int| 14 <= i < 28 implies right(#[trigger] standard_list()[i]) by {
        assert(i == 14 || i == 15 || i == 16 || i == 17 || i == 18 || i == 19 || i == 20 || i == 21 || i == 22 || i == 23 || i == 24 || i == 25 || i == 26 || i == 27);
    }
}

proof fn lemma_rows_c()
    ensures
        standard_list().len() == 217,
        forall|i: int| 28 <= i < 42 ==> right(#[trigger] standard_list()[i]),
{
    reveal(standard_list);
    assert(right(standard_list()[28])) by {
        reveal_strlit("su");
        reveal_strlit("す");
        assert("su"@.drop_last() =~= seq!['s']);
        assert(said_by("su"@)->0 =~= "す"@);
    }
    assert(right(standard_list()[29])) by {
        reveal_strlit("se");
        reveal_strlit("せ");
        assert("se"@.drop_last() =~= seq!['s']);
        assert(said_by("se"@)->0 =~= "せ"@);
    }
    assert(right(standard_list()[30])) by {
        reveal_strlit("so");
        reveal_strlit("そ");
        assert("so"@.drop_last() =~= seq!['s']);
        assert(said_by("so"@)->0 =~= "そ"@);
    }
    assert(right(standard_list()[31])) by {
        reveal_strlit("sya");
        reveal_strlit("しゃ");
        assert("sya"@.drop_last() =~= seq!['s', 'y']);
        assert(said_by("sya"@)->0 =~= "しゃ"@);
    }
    assert(right(standard_list()[32])) by {
        reveal_strlit("syi");
        reveal_strlit("しぃ");
        assert("syi"@.drop_last() =~= seq!['s', 'y']);
        assert(said_by("syi"@)->0 =~= "しぃ"@);
    }
    assert(right(standard_list()[33])) by {
        reveal_strlit("syu");
        reveal_strlit("しゅ");
        assert("syu"@.drop_last() =~= seq!['s', 'y']);
        assert(said_by("syu"@)->0 =~= "しゅ"@);
    }
    assert(right(standard_list()[34])) by {
        reveal_strlit("sye");
        reveal_strlit("しぇ");
        assert("sye"@.drop_last() =~= seq!['s', 'y']);
        assert(said_by("sye"@)->0 =~= "しぇ"@);
    }
    assert(right(standard_list()[35])) by {
        reveal_strlit("syo");
        reveal_strlit("しょ");
        assert("syo"@.drop_last() =~= seq!['s', 'y']);
        assert(said_by("syo"@)->0 =~= "しょ"@);
    }
    assert(right(standard_list()[36])) by {
        reveal_strlit("sha");
        reveal_strlit("しゃ");
        assert("sha"@.drop_last() =~= seq!['s', 'h']);
        assert(said_by("sha"@)->0 =~= "しゃ"@);
    }
    assert(right(standard_list()[37])) by {
        reveal_strlit("shu");
        reveal_strlit("しゅ");
        assert("shu"@.drop_last() =~= seq!['s', 'h']);
        assert(said_by("shu"@)->0 =~= "しゅ"@);
    }
    assert(right(standard_list()[38])) by {
        reveal_strlit("she");
        reveal_strlit("しぇ");
        assert("she"@.drop_last() =~= seq!['s', 'h']);
        assert(said_by("she"@)->0 =~= "しぇ"@);
    }
    assert(right(standard_list()[39])) by {
        reveal_strlit("sho");
        reveal_strlit("しょ");
        assert("sho"@.drop_last() =~= seq!['s', 'h']);
        assert(said_by("sho"@)->0 =~= "しょ"@);
    }
    assert(right(standard_list()[40])) by {
        reveal_strlit("za");
        reveal_strlit("ざ");
        assert("za"@.drop_last() =~= seq!['z']);
        assert(said_by("za"@)->0 =~= "ざ"@);
    }
    assert(right(standard_list()[41])) by {
        reveal_strlit("zi");
        reveal_strlit("じ");
        assert("zi"@.drop_last() =~= seq!['z']);
        assert(said_by("zi"@)->0 =~= "じ"@);
    }
    assert forall|i: int| 28 <= i < 42 implies right(#[trigger] standard_list()[i]) by {
        assert(i == 28 || i == 29 || i == 30 || i == 31 || i == 32 || i == 33 || i == 34 || i == 35 || i == 36 || i == 37 || i == 38 || i == 39 || i == 40 || i == 41);
    }
}

proof fn lemma_rows_d()
    ensures
        standard_list().len() == 217,
        forall|i: int| 42 <= i < 56 ==> right(#[trigger] standard_list()[i]),
{
    reveal(standard_list);
    assert(right(standard_list()[42])) by {
        reveal_strlit("zu");
        reveal_strlit("ず");
        assert("zu"@.drop_last() =~= seq!['z']);
        assert(said_by("zu"@)->0 =~= "ず"@);
    }
    assert(right(standard_list()[43])) by {
        reveal_strlit("ze");
        reveal_strlit("ぜ");
        assert("ze"@.drop_last() =~= seq!['z']);
        assert(said_by("ze"@)->0 =~= "ぜ"@);
    }
    assert(right(standard_list()[44])) by {
        reveal_strlit("zo");
        reveal_strlit("ぞ");
        assert("zo"@.drop_last() =~= seq!['z']);
        assert(said_by("zo"@)->0 =~= "ぞ"@);
    }
    assert(right(standard_list()[45])) by {
        reveal_strlit("zya");
        reveal_strlit("じゃ");
        assert("zya"@.drop_last() =~= seq!['z', 'y']);
        assert(said_by("zya"@)->0 =~= "じゃ"@);
    }
    assert(right(standard_list()[46])) by {
        reveal_strlit("zyi");
        reveal_strlit("じぃ");
        assert("zyi"@.drop_last() =~= seq!['z', 'y']);
        assert(said_by("zyi"@)->0 =~= "じぃ"@);
    }
    assert(right(standard_list()[47])) by {
        reveal_strlit("zyu");
        reveal_strlit("じゅ");
        assert("zyu"@.drop_last() =~= seq!['z', 'y']);
        assert(said_by("zyu"@)->0 =~= "じゅ"@);
    }
    assert(right(standard_list()[48])) by {
        reveal_strlit("zye");
        reveal_strlit("じぇ");
        assert("zye"@.drop_last() =~= seq!['z', 'y']);
        assert(said_by("zye"@)->0 =~= "じぇ"@);
    }
    assert(right(standard_list()[49])) by {
        reveal_strlit("zyo");
        reveal_strlit("じょ");
        assert("zyo"@.drop_last() =~= seq!['z', 'y']);
        assert(said_by("zyo"@)->0 =~= "じょ"@);
    }
    assert(right(standard_list()[50])) by {
        reveal_strlit("ja");
        reveal_strlit("じゃ");
        assert("ja"@.drop_last() =~= seq!['j']);
        assert(said_by("ja"@)->0 =~= "じゃ"@);
    }
    assert(right(standard_list()[51])) by {
        reveal_strlit("ji");
        reveal_strlit("じ");
        assert("ji"@.drop_last() =~= seq!['j']);
        assert(said_by("ji"@)->0 =~= "じ"@);
    }
    assert(right(standard_list()[52])) by {
        reveal_strlit("ju");
        reveal_strlit("じゅ");
        assert("ju"@.drop_last() =~= seq!['j']);
        assert(said_by("ju"@)->0 =~= "じゅ"@);
    }
    assert(right(standard_list()[53])) by {
        reveal_strlit("je");
        reveal_strlit("じぇ");
        assert("je"@.drop_last() =~= seq!['j']);
        assert(said_by("je"@)->0 =~= "じぇ"@);
    }
    assert(right(standard_list()[54])) by {
        reveal_strlit("jo");
        reveal_strlit("じょ");
        assert("jo"@.drop_last() =~= seq!['j']);
        assert(said_by("jo"@)->0 =~= "じょ"@);
    }
    assert(right(standard_list()[55])) by {
        reveal_strlit("jya");
        reveal_strlit("じゃ");
        assert("jya"@.drop_last() =~= seq!['j', 'y']);
        assert(said_by("jya"@)->0 =~= "じゃ"@);
    }
    assert forall|i: int| 42 <= i < 56 implies right(#[trigger] standard_list()[i]) by {
        assert(i == 42 || i == 43 || i == 44 || i == 45 || i == 46 || i == 47 || i == 48 || i == 49 || i == 50 || i == 51 || i == 52 || i == 53 || i == 54 || i == 55);
    }
}

proof fn lemma_rows_e()
    ensures
        standard_list().len() == 217,
        forall|i: int| 56 <= i < 70 ==> right(#[trigger] standard_list()[i]),
{
    reveal(standard_list);
    assert(right(standard_list()[56])) by {
        reveal_strlit("jyi");
        reveal_strlit("じぃ");
        assert("jyi"@.drop_last() =~= seq!['j', 'y']);
        assert(said_by("jyi"@)->0 =~= "じぃ"@);
    }
    assert(right(standard_list()[57])) by {
        reveal_strlit("jyu");
        reveal_strlit("じゅ");
        assert("jyu"@.drop_last() =~= seq!['j', 'y']);
        assert(said_by("jyu"@)->0 =~= "じゅ"@);
    }
    assert(right(standard_list()[58])) by {
        reveal_strlit("jye");
        reveal_strlit("じぇ");
        assert("jye"@.drop_last() =~= seq!['j', 'y']);
        assert(said_by("jye"@)->0 =~= "じぇ"@);
    }
    assert(right(standard_list()[59])) by {
        reveal_strlit("jyo");
        reveal_strlit("じょ");
        assert("jyo"@.drop_last() =~= seq!['j', 'y']);
        assert(said_by("jyo"@)->0 =~= "じょ"@);
    }
    assert(right(standard_list()[60])) by {
        reveal_strlit("ta");
        reveal_strlit("た");
        assert("ta"@.drop_last() =~= seq!['t']);
        assert(said_by("ta"@)->0 =~= "た"@);
    }
    assert(right(standard_list()[61])) by {
        reveal_strlit("ti");
        reveal_strlit("ち");
        assert("ti"@.drop_last() =~= seq!['t']);
        assert(said_by("ti"@)->0 =~= "ち"@);
    }
    assert(right(standard_list()[62])) by {
        reveal_strlit("tu");
        reveal_strlit("つ");
        assert("tu"@.drop_last() =~= seq!['t']);
        assert(said_by("tu"@)->0 =~= "つ"@);
    }
    assert(right(standard_list()[63])) by {
        reveal_strlit("te");
        reveal_strlit("て");
        assert("te"@.drop_last() =~= seq!['t']);
        assert(said_by("te"@)->0 =~= "て"@);
    }
    assert(right(standard_list()[64])) by {
        reveal_strlit("to");
        reveal_strlit("と");
        assert("to"@.drop_last() =~= seq!['t']);
        assert(said_by("to"@)->0 =~= "と"@);
    }
    assert(right(standard_list()[65])) by {
        reveal_strlit("tya");
        reveal_strlit("ちゃ");
        assert("tya"@.drop_last() =~= seq!['t', 'y']);
        assert(said_by("tya"@)->0 =~= "ちゃ"@);
    }
    assert(right(standard_list()[66])) by {
        reveal_strlit("tyi");
        reveal_strlit("ちぃ");
        assert("tyi"@.drop_last() =~= seq!['t', 'y']);
        assert(said_by("tyi"@)->0 =~= "ちぃ"@);
    }
    assert(right(standard_list()[67])) by {
        reveal_strlit("tyu");
        reveal_strlit("ちゅ");
        assert("tyu"@.drop_last() =~= seq!['t', 'y']);
        assert(said_by("tyu"@)->0 =~= "ちゅ"@);
    }
    assert(right(standard_list()[68])) by {
        reveal_strlit("tye");
        reveal_strlit("ちぇ");
        assert("tye"@.drop_last() =~= seq!['t', 'y']);
        assert(said_by("tye"@)->0 =~= "ちぇ"@);
    }
    assert(right(standard_list()[69])) by {
        reveal_strlit("tyo");
        reveal_strlit("ちょ");
        assert("tyo"@.drop_last() =~= seq!['t', 'y']);
        assert(said_by("tyo"@)->0 =~= "ちょ"@);
    }
    assert forall|i: int| 56 <= i < 70 implies right(#[trigger] standard_list()[i]) by {
        assert(i == 56 || i == 57 || i == 58 || i == 59 || i == 60 || i == 61 || i == 62 || i == 63 || i == 64 || i == 65 || i == 66 || i == 67 || i == 68 || i == 69);
    }
}

proof fn lemma_rows_f()
    ensures
        standard_list().len() == 217,
        forall|i: int| 70 <= i < 84 ==> right(#[trigger] standard_list()[i]),
{
    reveal(standard_list);
    assert(right(standard_list()[70])) by {
        reveal_strlit("chi");
        reveal_strlit("ち");
        assert("chi"@.drop_last() =~= seq!['c', 'h']);
        assert(said_by("chi"@)->0 =~= "ち"@);
    }
    assert(right(standard_list()[71])) by {
        reveal_strlit("cha");
        reveal_strlit("ちゃ");
        assert("cha"@.drop_last() =~= seq!['c', 'h']);
        assert(said_by("cha"@)->0 =~= "ちゃ"@);
    }
    assert(right(standard_list()[72])) by {
        reveal_strlit("chu");
        reveal_strlit("ちゅ");
        assert("chu"@.drop_last() =~= seq!['c', 'h']);
        assert(said_by("chu"@)->0 =~= "ちゅ"@);
    }
    assert(right(standard_list()[73])) by {
        reveal_strlit("che");
        reveal_strlit("ちぇ");
        assert("che"@.drop_last() =~= seq!['c', 'h']);
        assert(said_by("che"@)->0 =~= "ちぇ"@);
    }
    assert(right(standard_list()[74])) by {
        reveal_strlit("cho");
        reveal_strlit("ちょ");
        assert("cho"@.drop_last() =~= seq!['c', 'h']);
        assert(said_by("cho"@)->0 =~= "ちょ"@);
    }
    assert(right(standard_list()[75])) by {
        reveal_strlit("tsu");
        reveal_strlit("つ");
        assert("tsu"@.drop_last() =~= seq!['t', 's']);
        assert(said_by("tsu"@)->0 =~= "つ"@);
    }
    assert(right(standard_list()[76])) by {
        reveal_strlit("tsa");
        reveal_strlit("つぁ");
        assert("tsa"@.drop_last() =~= seq!['t', 's']);
        assert(said_by("tsa"@)->0 =~= "つぁ"@);
    }
    assert(right(standard_list()[77])) by {
        reveal_strlit("tsi");
        reveal_strlit("つぃ");
        assert("tsi"@.drop_last() =~= seq!['t', 's']);
        assert(said_by("tsi"@)->0 =~= "つぃ"@);
    }
    assert(right(standard_list()[78])) by {
        reveal_strlit("tse");
        reveal_strlit("つぇ");
        assert("tse"@.drop_last() =~= seq!['t', 's']);
        assert(said_by("tse"@)->0 =~= "つぇ"@);
    }
    assert(right(standard_list()[79])) by {
        reveal_strlit("tso");
        reveal_strlit("つぉ");
        assert("tso"@.drop_last() =~= seq!['t', 's']);
        assert(said_by("tso"@)->0 =~= "つぉ"@);
    }
    assert(right(standard_list()[80])) by {
        reveal_strlit("tha");
        reveal_strlit("てゃ");
        assert("tha"@.drop_last() =~= seq!['t', 'h']);
        assert(said_by("tha"@)->0 =~= "てゃ"@);
    }
    assert(right(standard_list()[81])) by {
        reveal_strlit("thi");
        reveal_strlit("てぃ");
        assert("thi"@.drop_last() =~= seq!['t', 'h']);
        assert(said_by("thi"@)->0 =~= "てぃ"@);
    }
    assert(right(standard_list()[82])) by {
        reveal_strlit("thu");
        reveal_strlit("てゅ");
        assert("thu"@.drop_last() =~= seq!['t', 'h']);
        assert(said_by("thu"@)->0 =~= "てゅ"@);
    }
    assert(right(standard_list()[83])) by {
        reveal_strlit("the");
        reveal_strlit("てぇ");
        assert("the"@.drop_last() =~= seq!['t', 'h']);
        assert(said_by("the"@)->0 =~= "てぇ"@);
    }
    assert forall|i: int| 70 <= i < 84 implies right(#[trigger] standard_list()[i]) by {
        assert(i == 70 || i == 71 || i == 72 || i == 73 || i == 74 || i == 75 || i == 76 || i == 77 || i == 78 || i == 79 || i == 80 || i == 81 || i == 82 || i == 83);
    }
}

proof fn lemma_rows_g()
    ensures
        standard_list().len() == 217,
        forall|i: int| 84 <= i < 98 ==> right(#[trigger] standard_list()[i]),
{
    reveal(standard_list);
    assert(right(standard_list()[84])) by {
        reveal_strlit("tho");
        reveal_strlit("てょ");
        assert("tho"@.drop_last() =~= seq!['t', 'h']);
        assert(said_by("tho"@)->0 =~= "てょ"@);
    }
    assert(right(standard_list()[85])) by {
        reveal_strlit("twu");
        reveal_strlit("とぅ");
        assert("twu"@.drop_last() =~= seq!['t', 'w']);
        assert(said_by("twu"@)->0 =~= "とぅ"@);
    }
    assert(right(standard_list()[86])) by {
        reveal_strlit("da");
        reveal_strlit("だ");
        assert("da"@.drop_last() =~= seq!['d']);
        assert(said_by("da"@)->0 =~= "だ"@);
    }
    assert(right(standard_list()[87])) by {
        reveal_strlit("di");
        reveal_strlit("ぢ");
        assert("di"@.drop_last() =~= seq!['d']);
        assert(said_by("di"@)->0 =~= "ぢ"@);
    }
    assert(right(standard_list()[88])) by {
        reveal_strlit("du");
        reveal_strlit("づ");
        assert("du"@.drop_last() =~= seq!['d']);
        assert(said_by("du"@)->0 =~= "づ"@);
    }
    assert(right(standard_list()[89])) by {
        reveal_strlit("de");
        reveal_strlit("で");
        assert("de"@.drop_last() =~= seq!['d']);
        assert(said_by("de"@)->0 =~= "で"@);
    }
    assert(right(standard_list()[90])) by {
        reveal_strlit("do");
        reveal_strlit("ど");
        assert("do"@.drop_last() =~= seq!['d']);
        assert(said_by("do"@)->0 =~= "ど"@);
    }
    assert(right(standard_list()[91])) by {
        reveal_strlit("dya");
        reveal_strlit("ぢゃ");
        assert("dya"@.drop_last() =~= seq!['d', 'y']);
        assert(said_by("dya"@)->0 =~= "ぢゃ"@);
    }
    assert(right(standard_list()[92])) by {
        reveal_strlit("dyi");
        reveal_strlit("ぢぃ");
        assert("dyi"@.drop_last() =~= seq!['d', 'y']);
        assert(said_by("dyi"@)->0 =~= "ぢぃ"@);
    }
    assert(right(standard_list()[93])) by {
        reveal_strlit("dyu");
        reveal_strlit("ぢゅ");
        assert("dyu"@.drop_last() =~= seq!['d', 'y']);
        assert(said_by("dyu"@)->0 =~= "ぢゅ"@);
    }
    assert(right(standard_list()[94])) by {
        reveal_strlit("dye");
        reveal_strlit("ぢぇ");
        assert("dye"@.drop_last() =~= seq!['d', 'y']);
        assert(said_by("dye"@)->0 =~= "ぢぇ"@);
    }
    assert(right(standard_list()[95])) by {
        reveal_strlit("dyo");
        reveal_strlit("ぢょ");
        assert("dyo"@.drop_last() =~= seq!['d', 'y']);
        assert(said_by("dyo"@)->0 =~= "ぢょ"@);
    }
    assert(right(standard_list()[96])) by {
        reveal_strlit("dha");
        reveal_strlit("でゃ");
        assert("dha"@.drop_last() =~= seq!['d', 'h']);
        assert(said_by("dha"@)->0 =~= "でゃ"@);
    }
    assert(right(standard_list()[97])) by {
        reveal_strlit("dhi");
        reveal_strlit("でぃ");
        assert("dhi"@.drop_last() =~= seq!['d', 'h']);
        assert(said_by("dhi"@)->0 =~= "でぃ"@);
    }
    assert forall|i: int| 84 <= i < 98 implies right(#[trigger] standard_list()[i]) by {
        assert(i == 84 || i == 85 || i == 86 || i == 87 || i == 88 || i == 89 || i == 90 || i == 91 || i == 92 || i == 93 || i == 94 || i == 95 || i == 96 || i == 97);
    }
}

proof fn lemma_rows_h()
    ensures
        standard_list().len() == 217,
        forall|i: int| 98 <= i < 112 ==> right(#[trigger] standard_list()[i]),
{
    reveal(standard_list);
    assert(right(standard_list()[98])) by {
        reveal_strlit("dhu");
        reveal_strlit("でゅ");
        assert("dhu"@.drop_last() =~= seq!['d', 'h']);
        assert(said_by("dhu"@)->0 =~= "でゅ"@);
    }
    assert(right(standard_list()[99])) by {
        reveal_strlit("dhe");
        reveal_strlit("でぇ");
        assert("dhe"@.drop_last() =~= seq!['d', 'h']);
        assert(said_by("dhe"@)->0 =~= "でぇ"@);
    }
    assert(right(standard_list()[100])) by {
        reveal_strlit("dho");
        reveal_strlit("でょ");
        assert("dho"@.drop_last() =~= seq!['d', 'h']);
        assert(said_by("dho"@)->0 =~= "でょ"@);
    }
    assert(right(standard_list()[101])) by {
        reveal_strlit("dwu");
        reveal_strlit("どぅ");
        assert("dwu"@.drop_last() =~= seq!['d', 'w']);
        assert(said_by("dwu"@)->0 =~= "どぅ"@);
    }
    assert(right(standard_list()[102])) by {
        reveal_strlit("na");
        reveal_strlit("な");
        assert("na"@.drop_last() =~= seq!['n']);
        assert(said_by("na"@)->0 =~= "な"@);
    }
    assert(right(standard_list()[103])) by {
        reveal_strlit("ni");
        reveal_strlit("に");
        assert("ni"@.drop_last() =~= seq!['n']);
        assert(said_by("ni"@)->0 =~= "に"@);
    }
    assert(right(standard_list()[104])) by {
        reveal_strlit("nu");
        reveal_strlit("ぬ");
        assert("nu"@.drop_last() =~= seq!['n']);
        assert(said_by("nu"@)->0 =~= "ぬ"@);
    }
    assert(right(standard_list()[105])) by {
        reveal_strlit("ne");
        reveal_strlit("ね");
        assert("ne"@.drop_last() =~= seq!['n']);
        assert(said_by("ne"@)->0 =~= "ね"@);
    }
    assert(right(standard_list()[106])) by {
        reveal_strlit("no");
        reveal_strlit("の");
        assert("no"@.drop_last() =~= seq!['n']);
        assert(said_by("no"@)->0 =~= "の"@);
    }
    assert(right(standard_list()[107])) by {
        reveal_strlit("nya");
        reveal_strlit("にゃ");
        assert("nya"@.drop_last() =~= seq!['n', 'y']);
        assert(said_by("nya"@)->0 =~= "にゃ"@);
    }
    assert(right(standard_list()[108])) by {
        reveal_strlit("nyi");
        reveal_strlit("にぃ");
        assert("nyi"@.drop_last() =~= seq!['n', 'y']);
        assert(said_by("nyi"@)->0 =~= "にぃ"@);
    }
    assert(right(standard_list()[109])) by {
        reveal_strlit("nyu");
        reveal_strlit("にゅ");
        assert("nyu"@.drop_last() =~= seq!['n', 'y']);
        assert(said_by("nyu"@)->0 =~= "にゅ"@);
    }
    assert(right(standard_list()[110])) by {
        reveal_strlit("nye");
        reveal_strlit("にぇ");
        assert("nye"@.drop_last() =~= seq!['n', 'y']);
        assert(said_by("nye"@)->0 =~= "にぇ"@);
    }
    assert(right(standard_list()[111])) by {
        reveal_strlit("nyo");
        reveal_strlit("にょ");
        assert("nyo"@.drop_last() =~= seq!['n', 'y']);
        assert(said_by("nyo"@)->0 =~= "にょ"@);
    }
    assert forall|i: int| 98 <= i < 112 implies right(#[trigger] standard_list()[i]) by {
        assert(i == 98 || i == 99 || i == 100 || i == 101 || i == 102 || i == 103 || i == 104 || i == 105 || i == 106 || i == 107 || i == 108 || i == 109 || i == 110 || i == 111);
    }
}

proof fn lemma_rows_i()
    ensures
        standard_list().len() == 217,
        forall|i: int| 112 <= i < 126 ==> right(#[trigger] standard_list()[i]),
{
    reveal(standard_list);
    assert(right(standard_list()[112])) by {
        reveal_strlit("nn");
        reveal_strlit("ん");
        assert("nn"@.drop_last() =~= seq!['n']);
        assert(said_by("nn"@)->0 =~= "ん"@);
    }
    assert(right(standard_list()[113])) by {
        reveal_strlit("n'");
        reveal_strlit("ん");
        assert("n'"@.drop_last() =~= seq!['n']);
        assert(said_by("n'"@)->0 =~= "ん"@);
    }
    assert(right(standard_list()[114])) by {
        reveal_strlit("ha");
        reveal_strlit("は");
        assert("ha"@.drop_last() =~= seq!['h']);
        assert(said_by("ha"@)->0 =~= "は"@);
    }
    assert(right(standard_list()[115])) by {
        reveal_strlit("hi");
        reveal_strlit("ひ");
        assert("hi"@.drop_last() =~= seq!['h']);
        assert(said_by("hi"@)->0 =~= "ひ"@);
    }
    assert(right(standard_list()[116])) by {
        reveal_strlit("hu");
        reveal_strlit("ふ");
        assert("hu"@.drop_last() =~= seq!['h']);
        assert(said_by("hu"@)->0 =~= "ふ"@);
    }
    assert(right(standard_list()[117])) by {
        reveal_strlit("he");
        reveal_strlit("へ");
        assert("he"@.drop_last() =~= seq!['h']);
        assert(said_by("he"@)->0 =~= "へ"@);
    }
    assert(right(standard_list()[118])) by {
        reveal_strlit("ho");
        reveal_strlit("ほ");
        assert("ho"@.drop_last() =~= seq!['h']);
        assert(said_by("ho"@)->0 =~= "ほ"@);
    }
    assert(right(standard_list()[119])) by {
        reveal_strlit("hya");
        reveal_strlit("ひゃ");
        assert("hya"@.drop_last() =~= seq!['h', 'y']);
        assert(said_by("hya"@)->0 =~= "ひゃ"@);
    }
    assert(right(standard_list()[120])) by {
        reveal_strlit("hyi");
        reveal_strlit("ひぃ");
        assert("hyi"@.drop_last() =~= seq!['h', 'y']);
        assert(said_by("hyi"@)->0 =~= "ひぃ"@);
    }
    assert(right(standard_list()[121])) by {
        reveal_strlit("hyu");
        reveal_strlit("ひゅ");
        assert("hyu"@.drop_last() =~= seq!['h', 'y']);
        assert(said_by("hyu"@)->0 =~= "ひゅ"@);
    }
    assert(right(standard_list()[122])) by {
        reveal_strlit("hye");
        reveal_strlit("ひぇ");
        assert("hye"@.drop_last() =~= seq!['h', 'y']);
        assert(said_by("hye"@)->0 =~= "ひぇ"@);
    }
    assert(right(standard_list()[123])) by {
        reveal_strlit("hyo");
        reveal_strlit("ひょ");
        assert("hyo"@.drop_last() =~= seq!['h', 'y']);
        assert(said_by("hyo"@)->0 =~= "ひょ"@);
    }
    assert(right(standard_list()[124])) by {
        reveal_strlit("fu");
        reveal_strlit("ふ");
        assert("fu"@.drop_last() =~= seq!['f']);
        assert(said_by("fu"@)->0 =~= "ふ"@);
    }
    assert(right(standard_list()[125])) by {
        reveal_strlit("fa");
        reveal_strlit("ふぁ");
        assert("fa"@.drop_last() =~= seq!['f']);
        assert(said_by("fa"@)->0 =~= "ふぁ"@);
    }
    assert forall|i: int| 112 <= i < 126 implies right(#[trigger] standard_list()[i]) by {
        assert(i == 112 || i == 113 || i == 114 || i == 115 || i == 116 || i == 117 || i == 118 || i == 119 || i == 120 || i == 121 || i == 122 || i == 123 || i == 124 || i == 125);
    }
}

proof fn lemma_rows_j()
    ensures
        standard_list().len() == 217,
        forall|i: int| 126 <= i < 140 ==> right(#[trigger] standard_list()[i]),
{
    reveal(standard_list);
    assert(right(standard_list()[126])) by {
        reveal_strlit("fi");
        reveal_strlit("ふぃ");
        assert("fi"@.drop_last() =~= seq!['f']);
        assert(said_by("fi"@)->0 =~= "ふぃ"@);
    }
    assert(right(standard_list()[127])) by {
        reveal_strlit("fe");
        reveal_strlit("ふぇ");
        assert("fe"@.drop_last() =~= seq!['f']);
        assert(said_by("fe"@)->0 =~= "ふぇ"@);
    }
    assert(right(standard_list()[128])) by {
        reveal_strlit("fo");
        reveal_strlit("ふぉ");
        assert("fo"@.drop_last() =~= seq!['f']);
        assert(said_by("fo"@)->0 =~= "ふぉ"@);
    }
    assert(right(standard_list()[129])) by {
        reveal_strlit("fya");
        reveal_strlit("ふゃ");
        assert("fya"@.drop_last() =~= seq!['f', 'y']);
        assert(said_by("fya"@)->0 =~= "ふゃ"@);
    }
    assert(right(standard_list()[130])) by {
        reveal_strlit("fyu");
        reveal_strlit("ふゅ");
        assert("fyu"@.drop_last() =~= seq!['f', 'y']);
        assert(said_by("fyu"@)->0 =~= "ふゅ"@);
    }
    assert(right(standard_list()[131])) by {
        reveal_strlit("fyo");
        reveal_strlit("ふょ");
        assert("fyo"@.drop_last() =~= seq!['f', 'y']);
        assert(said_by("fyo"@)->0 =~= "ふょ"@);
    }
    assert(right(standard_list()[132])) by {
        reveal_strlit("ba");
        reveal_strlit("ば");
        assert("ba"@.drop_last() =~= seq!['b']);
        assert(said_by("ba"@)->0 =~= "ば"@);
    }
    assert(right(standard_list()[133])) by {
        reveal_strlit("bi");
        reveal_strlit("び");
        assert("bi"@.drop_last() =~= seq!['b']);
        assert(said_by("bi"@)->0 =~= "び"@);
    }
    assert(right(standard_list()[134])) by {
        reveal_strlit("bu");
        reveal_strlit("ぶ");
        assert("bu"@.drop_last() =~= seq!['b']);
        assert(said_by("bu"@)->0 =~= "ぶ"@);
    }
    assert(right(standard_list()[135])) by {
        reveal_strlit("be");
        reveal_strlit("べ");
        assert("be"@.drop_last() =~= seq!['b']);
        assert(said_by("be"@)->0 =~= "べ"@);
    }
    assert(right(standard_list()[136])) by {
        reveal_strlit("bo");
        reveal_strlit("ぼ");
        assert("bo"@.drop_last() =~= seq!['b']);
        assert(said_by("bo"@)->0 =~= "ぼ"@);
    }
    assert(right(standard_list()[137])) by {
        reveal_strlit("bya");
        reveal_strlit("びゃ");
        assert("bya"@.drop_last() =~= seq!['b', 'y']);
        assert(said_by("bya"@)->0 =~= "びゃ"@);
    }
    assert(right(standard_list()[138])) by {
        reveal_strlit("byi");
        reveal_strlit("びぃ");
        assert("byi"@.drop_last() =~= seq!['b', 'y']);
        assert(said_by("byi"@)->0 =~= "びぃ"@);
    }
    assert(right(standard_list()[139])) by {
        reveal_strlit("byu");
        reveal_strlit("びゅ");
        assert("byu"@.drop_last() =~= seq!['b', 'y']);
        assert(said_by("byu"@)->0 =~= "びゅ"@);
    }
    assert forall|i: int| 126 <= i < 140 implies right(#[trigger] standard_list()[i]) by {
        assert(i == 126 || i == 127 || i == 128 || i == 129 || i == 130 || i == 131 || i == 132 || i == 133 || i == 134 || i == 135 || i == 136 || i == 137 || i == 138 || i == 139);
    }
}

proof fn lemma_rows_k()
    ensures
        standard_list().len() == 217,
        forall|i: int| 140 <= i < 154 ==> right(#[trigger] standard_list()[i]),
{
    reveal(standard_list);
    assert(right(standard_list()[140])) by {
        reveal_strlit("bye");
        reveal_strlit("びぇ");
        assert("bye"@.drop_last() =~= seq!['b', 'y']);
        assert(said_by("bye"@)->0 =~= "びぇ"@);
    }
    assert(right(standard_list()[141])) by {
        reveal_strlit("byo");
        reveal_strlit("びょ");
        assert("byo"@.drop_last() =~= seq!['b', 'y']);
        assert(said_by("byo"@)->0 =~= "びょ"@);
    }
    assert(right(standard_list()[142])) by {
        reveal_strlit("pa");
        reveal_strlit("ぱ");
        assert("pa"@.drop_last() =~= seq!['p']);
        assert(said_by("pa"@)->0 =~= "ぱ"@);
    }
    assert(right(standard_list()[143])) by {
        reveal_strlit("pi");
        reveal_strlit("ぴ");
        assert("pi"@.drop_last() =~= seq!['p']);
        assert(said_by("pi"@)->0 =~= "ぴ"@);
    }
    assert(right(standard_list()[144])) by {
        reveal_strlit("pu");
        reveal_strlit("ぷ");
        assert("pu"@.drop_last() =~= seq!['p']);
        assert(said_by("pu"@)->0 =~= "ぷ"@);
    }
    assert(right(standard_list()[145])) by {
        reveal_strlit("pe");
        reveal_strlit("ぺ");
        assert("pe"@.drop_last() =~= seq!['p']);
        assert(said_by("pe"@)->0 =~= "ぺ"@);
    }
    assert(right(standard_list()[146])) by {
        reveal_strlit("po");
        reveal_strlit("ぽ");
        assert("po"@.drop_last() =~= seq!['p']);
        assert(said_by("po"@)->0 =~= "ぽ"@);
    }
    assert(right(standard_list()[147])) by {
        reveal_strlit("pya");
        reveal_strlit("ぴゃ");
        assert("pya"@.drop_last() =~= seq!['p', 'y']);
        assert(said_by("pya"@)->0 =~= "ぴゃ"@);
    }
    assert(right(standard_list()[148])) by {
        reveal_strlit("pyi");
        reveal_strlit("ぴぃ");
        assert("pyi"@.drop_last() =~= seq!['p', 'y']);
        assert(said_by("pyi"@)->0 =~= "ぴぃ"@);
    }
    assert(right(standard_list()[149])) by {
        reveal_strlit("pyu");
        reveal_strlit("ぴゅ");
        assert("pyu"@.drop_last() =~= seq!['p', 'y']);
        assert(said_by("pyu"@)->0 =~= "ぴゅ"@);
    }
    assert(right(standard_list()[150])) by {
        reveal_strlit("pye");
        reveal_strlit("ぴぇ");
        assert("pye"@.drop_last() =~= seq!['p', 'y']);
        assert(said_by("pye"@)->0 =~= "ぴぇ"@);
    }
    assert(right(standard_list()[151])) by {
        reveal_strlit("pyo");
        reveal_strlit("ぴょ");
        assert("pyo"@.drop_last() =~= seq!['p', 'y']);
        assert(said_by("pyo"@)->0 =~= "ぴょ"@);
    }
    assert(right(standard_list()[152])) by {
        reveal_strlit("ma");
        reveal_strlit("ま");
        assert("ma"@.drop_last() =~= seq!['m']);
        assert(said_by("ma"@)->0 =~= "ま"@);
    }
    assert(right(standard_list()[153])) by {
        reveal_strlit("mi");
        reveal_strlit("み");
        assert("mi"@.drop_last() =~= seq!['m']);
        assert(said_by("mi"@)->0 =~= "み"@);
    }
    assert forall|i: int| 140 <= i < 154 implies right(#[trigger] standard_list()[i]) by {
        assert(i == 140 || i == 141 || i == 142 || i == 143 || i == 144 || i == 145 || i == 146 || i == 147 || i == 148 || i == 149 || i == 150 || i == 151 || i == 152 || i == 153);
    }
}

proof fn lemma_rows_l()
    ensures
        standard_list().len() == 217,
        forall|i: int| 154 <= i < 168 ==> right(#[trigger] standard_list()[i]),
{
    reveal(standard_list);
    assert(right(standard_list()[154])) by {
        reveal_strlit("mu");
        reveal_strlit("む");
        assert("mu"@.drop_last() =~= seq!['m']);
        assert(said_by("mu"@)->0 =~= "む"@);
    }
    assert(right(standard_list()[155])) by {
        reveal_strlit("me");
        reveal_strlit("め");
        assert("me"@.drop_last() =~= seq!['m']);
        assert(said_by("me"@)->0 =~= "め"@);
    }
    assert(right(standard_list()[156])) by {
        reveal_strlit("mo");
        reveal_strlit("も");
        assert("mo"@.drop_last() =~= seq!['m']);
        assert(said_by("mo"@)->0 =~= "も"@);
    }
    assert(right(standard_list()[157])) by {
        reveal_strlit("mya");
        reveal_strlit("みゃ");
        assert("mya"@.drop_last() =~= seq!['m', 'y']);
        assert(said_by("mya"@)->0 =~= "みゃ"@);
    }
    assert(right(standard_list()[158])) by {
        reveal_strlit("myi");
        reveal_strlit("みぃ");
        assert("myi"@.drop_last() =~= seq!['m', 'y']);
        assert(said_by("myi"@)->0 =~= "みぃ"@);
    }
    assert(right(standard_list()[159])) by {
        reveal_strlit("myu");
        reveal_strlit("みゅ");
        assert("myu"@.drop_last() =~= seq!['m', 'y']);
        assert(said_by("myu"@)->0 =~= "みゅ"@);
    }
    assert(right(standard_list()[160])) by {
        reveal_strlit("mye");
        reveal_strlit("みぇ");
        assert("mye"@.drop_last() =~= seq!['m', 'y']);
        assert(said_by("mye"@)->0 =~= "みぇ"@);
    }
    assert(right(standard_list()[161])) by {
        reveal_strlit("myo");
        reveal_strlit("みょ");
        assert("myo"@.drop_last() =~= seq!['m', 'y']);
        assert(said_by("myo"@)->0 =~= "みょ"@);
    }
    assert(right(standard_list()[162])) by {
        reveal_strlit("ya");
        reveal_strlit("や");
        assert("ya"@.drop_last() =~= seq!['y']);
        assert(said_by("ya"@)->0 =~= "や"@);
    }
    assert(right(standard_list()[163])) by {
        reveal_strlit("yu");
        reveal_strlit("ゆ");
        assert("yu"@.drop_last() =~= seq!['y']);
        assert(said_by("yu"@)->0 =~= "ゆ"@);
    }
    assert(right(standard_list()[164])) by {
        reveal_strlit("ye");
        reveal_strlit("いぇ");
        assert("ye"@.drop_last() =~= seq!['y']);
        assert(said_by("ye"@)->0 =~= "いぇ"@);
    }
    assert(right(standard_list()[165])) by {
        reveal_strlit("yo");
        reveal_strlit("よ");
        assert("yo"@.drop_last() =~= seq!['y']);
        assert(said_by("yo"@)->0 =~= "よ"@);
    }
    assert(right(standard_list()[166])) by {
        reveal_strlit("ra");
        reveal_strlit("ら");
        assert("ra"@.drop_last() =~= seq!['r']);
        assert(said_by("ra"@)->0 =~= "ら"@);
    }
    assert(right(standard_list()[167])) by {
        reveal_strlit("ri");
        reveal_strlit("り");
        assert("ri"@.drop_last() =~= seq!['r']);
        assert(said_by("ri"@)->0 =~= "り"@);
    }
    assert forall|i: int| 154 <= i < 168 implies right(#[trigger] standard_list()[i]) by {
        assert(i == 154 || i == 155 || i == 156 || i == 157 || i == 158 || i == 159 || i == 160 || i == 161 || i == 162 || i == 163 || i == 164 || i == 165 || i == 166 || i == 167);
    }
}

proof fn lemma_rows_m()
    ensures
        standard_list().len() == 217,
        forall|i: int| 168 <= i < 182 ==> right(#[trigger] standard_list()[i]),
{
    reveal(standard_list);
    assert(right(standard_list()[168])) by {
        reveal_strlit("ru");
        reveal_strlit("る");
        assert("ru"@.drop_last() =~= seq!['r']);
        assert(said_by("ru"@)->0 =~= "る"@);
    }
    assert(right(standard_list()[169])) by {
        reveal_strlit("re");
        reveal_strlit("れ");
        assert("re"@.drop_last() =~= seq!['r']);
        assert(said_by("re"@)->0 =~= "れ"@);
    }
    assert(right(standard_list()[170])) by {
        reveal_strlit("ro");
        reveal_strlit("ろ");
        assert("ro"@.drop_last() =~= seq!['r']);
        assert(said_by("ro"@)->0 =~= "ろ"@);
    }
    assert(right(standard_list()[171])) by {
        reveal_strlit("rya");
        reveal_strlit("りゃ");
        assert("rya"@.drop_last() =~= seq!['r', 'y']);
        assert(said_by("rya"@)->0 =~= "りゃ"@);
    }
    assert(right(standard_list()[172])) by {
        reveal_strlit("ryi");
        reveal_strlit("りぃ");
        assert("ryi"@.drop_last() =~= seq!['r', 'y']);
        assert(said_by("ryi"@)->0 =~= "りぃ"@);
    }
    assert(right(standard_list()[173])) by {
        reveal_strlit("ryu");
        reveal_strlit("りゅ");
        assert("ryu"@.drop_last() =~= seq!['r', 'y']);
        assert(said_by("ryu"@)->0 =~= "りゅ"@);
    }
    assert(right(standard_list()[174])) by {
        reveal_strlit("rye");
        reveal_strlit("りぇ");
        assert("rye"@.drop_last() =~= seq!['r', 'y']);
        assert(said_by("rye"@)->0 =~= "りぇ"@);
    }
    assert(right(standard_list()[175])) by {
        reveal_strlit("ryo");
        reveal_strlit("りょ");
        assert("ryo"@.drop_last() =~= seq!['r', 'y']);
        assert(said_by("ryo"@)->0 =~= "りょ"@);
    }
    assert(right(standard_list()[176])) by {
        reveal_strlit("wa");
        reveal_strlit("わ");
        assert("wa"@.drop_last() =~= seq!['w']);
        assert(said_by("wa"@)->0 =~= "わ"@);
    }
    assert(right(standard_list()[177])) by {
        reveal_strlit("wi");
        reveal_strlit("ゐ");
        assert("wi"@.drop_last() =~= seq!['w']);
        assert(said_by("wi"@)->0 =~= "ゐ"@);
    }
    assert(right(standard_list()[178])) by {
        reveal_strlit("we");
        reveal_strlit("ゑ");
        assert("we"@.drop_last() =~= seq!['w']);
        assert(said_by("we"@)->0 =~= "ゑ"@);
    }
    assert(right(standard_list()[179])) by {
        reveal_strlit("wo");
        reveal_strlit("を");
        assert("wo"@.drop_last() =~= seq!['w']);
        assert(said_by("wo"@)->0 =~= "を"@);
    }
    assert(right(standard_list()[180])) by {
        reveal_strlit("wha");
        reveal_strlit("うぁ");
        assert("wha"@.drop_last() =~= seq!['w', 'h']);
        assert(said_by("wha"@)->0 =~= "うぁ"@);
    }
    assert(right(standard_list()[181])) by {
        reveal_strlit("whi");
        reveal_strlit("うぃ");
        assert("whi"@.drop_last() =~= seq!['w', 'h']);
        assert(said_by("whi"@)->0 =~= "うぃ"@);
    }
    assert forall|i: int| 168 <= i < 182 implies right(#[trigger] standard_list()[i]) by {
        assert(i == 168 || i == 169 || i == 170 || i == 171 || i == 172 || i == 173 || i == 174 || i == 175 || i == 176 || i == 177 || i == 178 || i == 179 || i == 180 || i == 181);
    }
}

proof fn lemma_rows_n()
    ensures
        standard_list().len() == 217,
        forall|i: int| 182 <= i < 196 ==> right(#[trigger] standard_list()[i]),
{
    reveal(standard_list);
    assert(right(standard_list()[182])) by {
        reveal_strlit("whe");
        reveal_strlit("うぇ");
        assert("whe"@.drop_last() =~= seq!['w', 'h']);
        assert(said_by("whe"@)->0 =~= "うぇ"@);
    }
    assert(right(standard_list()[183])) by {
        reveal_strlit("who");
        reveal_strlit("うぉ");
        assert("who"@.drop_last() =~= seq!['w', 'h']);
        assert(said_by("who"@)->0 =~= "うぉ"@);
    }
    assert(right(standard_list()[184])) by {
        reveal_strlit("va");
        reveal_strlit("ゔぁ");
        assert("va"@.drop_last() =~= seq!['v']);
        assert(said_by("va"@)->0 =~= "ゔぁ"@);
    }
    assert(right(standard_list()[185])) by {
        reveal_strlit("vi");
        reveal_strlit("ゔぃ");
        assert("vi"@.drop_last() =~= seq!['v']);
        assert(said_by("vi"@)->0 =~= "ゔぃ"@);
    }
    assert(right(standard_list()[186])) by {
        reveal_strlit("vu");
        reveal_strlit("ゔ");
        assert("vu"@.drop_last() =~= seq!['v']);
        assert(said_by("vu"@)->0 =~= "ゔ"@);
    }
    assert(right(standard_list()[187])) by {
        reveal_strlit("ve");
        reveal_strlit("ゔぇ");
        assert("ve"@.drop_last() =~= seq!['v']);
        assert(said_by("ve"@)->0 =~= "ゔぇ"@);
    }
    assert(right(standard_list()[188])) by {
        reveal_strlit("vo");
        reveal_strlit("ゔぉ");
        assert("vo"@.drop_last() =~= seq!['v']);
        assert(said_by("vo"@)->0 =~= "ゔぉ"@);
    }
    assert(right(standard_list()[189])) by {
        reveal_strlit("xa");
        reveal_strlit("ぁ");
        assert("xa"@.drop_last() =~= seq!['x']);
        assert(said_by("xa"@)->0 =~= "ぁ"@);
    }
    assert(right(standard_list()[190])) by {
        reveal_strlit("xi");
        reveal_strlit("ぃ");
        assert("xi"@.drop_last() =~= seq!['x']);
        assert(said_by("xi"@)->0 =~= "ぃ"@);
    }
    assert(right(standard_list()[191])) by {
        reveal_strlit("xu");
        reveal_strlit("ぅ");
        assert("xu"@.drop_last() =~= seq!['x']);
        assert(said_by("xu"@)->0 =~= "ぅ"@);
    }
    assert(right(standard_list()[192])) by {
        reveal_strlit("xe");
        reveal_strlit("ぇ");
        assert("xe"@.drop_last() =~= seq!['x']);
        assert(said_by("xe"@)->0 =~= "ぇ"@);
    }
    assert(right(standard_list()[193])) by {
        reveal_strlit("xo");
        reveal_strlit("ぉ");
        assert("xo"@.drop_last() =~= seq!['x']);
        assert(said_by("xo"@)->0 =~= "ぉ"@);
    }
    assert(right(standard_list()[194])) by {
        reveal_strlit("xya");
        reveal_strlit("ゃ");
        assert("xya"@.drop_last() =~= seq!['x', 'y']);
        assert(said_by("xya"@)->0 =~= "ゃ"@);
    }
    assert(right(standard_list()[195])) by {
        reveal_strlit("xyu");
        reveal_strlit("ゅ");
        assert("xyu"@.drop_last() =~= seq!['x', 'y']);
        assert(said_by("xyu"@)->0 =~= "ゅ"@);
    }
    assert forall|i: int| 182 <= i < 196 implies right(#[trigger] standard_list()[i]) by {
        assert(i == 182 || i == 183 || i == 184 || i == 185 || i == 186 || i == 187 || i == 188 || i == 189 || i == 190 || i == 191 || i == 192 || i == 193 || i == 194 || i == 195);
    }
}

proof fn lemma_rows_o()
    ensures
        standard_list().len() == 217,
        forall|i: int| 196 <= i < 210 ==> right(#[trigger] standard_list()[i]),
{
    reveal(standard_list);
    assert(right(standard_list()[196])) by {
        reveal_strlit("xyo");
        reveal_strlit("ょ");
        assert("xyo"@.drop_last() =~= seq!['x', 'y']);
        assert(said_by("xyo"@)->0 =~= "ょ"@);
    }
    assert(right(standard_list()[197])) by {
        reveal_strlit("xtu");
        reveal_strlit("っ");
        assert("xtu"@.drop_last() =~= seq!['x', 't']);
        assert(said_by("xtu"@)->0 =~= "っ"@);
    }
    assert(right(standard_list()[198])) by {
        reveal_strlit("xtsu");
        reveal_strlit("っ");
        assert("xtsu"@.drop_last() =~= seq!['x', 't', 's']);
        assert(said_by("xtsu"@)->0 =~= "っ"@);
    }
    assert(right(standard_list()[199])) by {
        reveal_strlit("xwa");
        reveal_strlit("ゎ");
        assert("xwa"@.drop_last() =~= seq!['x', 'w']);
        assert(said_by("xwa"@)->0 =~= "ゎ"@);
    }
    assert(right(standard_list()[200])) by {
        reveal_strlit("xka");
        reveal_strlit("ヵ");
        assert("xka"@.drop_last() =~= seq!['x', 'k']);
        assert(said_by("xka"@)->0 =~= "ヵ"@);
    }
    assert(right(standard_list()[201])) by {
        reveal_strlit("xke");
        reveal_strlit("ヶ");
        assert("xke"@.drop_last() =~= seq!['x', 'k']);
        assert(said_by("xke"@)->0 =~= "ヶ"@);
    }
    assert(right(standard_list()[202])) by {
        reveal_strlit("-");
        reveal_strlit("ー");
        assert("-"@.drop_last() =~= seq![]);
        assert(said_by("-"@)->0 =~= "ー"@);
    }
    assert(right(standard_list()[203])) by {
        reveal_strlit(".");
        reveal_strlit("。");
        assert("."@.drop_last() =~= seq![]);
        assert(said_by("."@)->0 =~= "。"@);
    }
    assert(right(standard_list()[204])) by {
        reveal_strlit(",");
        reveal_strlit("、");
        assert(","@.drop_last() =~= seq![]);
        assert(said_by(","@)->0 =~= "、"@);
    }
    assert(right(standard_list()[205])) by {
        reveal_strlit("[");
        reveal_strlit("「");
        assert("["@.drop_last() =~= seq![]);
        assert(said_by("["@)->0 =~= "「"@);
    }
    assert(right(standard_list()[206])) by {
        reveal_strlit("]");
        reveal_strlit("」");
        assert("]"@.drop_last() =~= seq![]);
        assert(said_by("]"@)->0 =~= "」"@);
    }
    assert(right(standard_list()[207])) by {
        reveal_strlit("z-");
        reveal_strlit("〜");
        assert("z-"@.drop_last() =~= seq!['z']);
        assert(said_by("z-"@)->0 =~= "〜"@);
    }
    assert(right(standard_list()[208])) by {
        reveal_strlit("z[");
        reveal_strlit("『");
        assert("z["@.drop_last() =~= seq!['z']);
        assert(said_by("z["@)->0 =~= "『"@);
    }
    assert(right(standard_list()[209])) by {
        reveal_strlit("z]");
        reveal_strlit("』");
        assert("z]"@.drop_last() =~= seq!['z']);
        assert(said_by("z]"@)->0 =~= "』"@);
    }
    assert forall|i: int| 196 <= i < 210 implies right(#[trigger] standard_list()[i]) by {
        assert(i == 196 || i == 197 || i == 198 || i == 199 || i == 200 || i == 201 || i == 202 || i == 203 || i == 204 || i == 205 || i == 206 || i == 207 || i == 208 || i == 209);
    }
}

proof fn lemma_rows_p()
    ensures
        standard_list().len() == 217,
        forall|i: int| 210 <= i < 217 ==> right(#[trigger] standard_list()[i]),
{
    reveal(standard_list);
    assert(right(standard_list()[210])) by {
        reveal_strlit("z,");
        reveal_strlit("‥");
        assert("z,"@.drop_last() =~= seq!['z']);
        assert(said_by("z,"@)->0 =~= "‥"@);
    }
    assert(right(standard_list()[211])) by {
        reveal_strlit("z.");
        reveal_strlit("…");
        assert("z."@.drop_last() =~= seq!['z']);
        assert(said_by("z."@)->0 =~= "…"@);
    }
    assert(right(standard_list()[212])) by {
        reveal_strlit("z/");
        reveal_strlit("・");
        assert("z/"@.drop_last() =~= seq!['z']);
        assert(said_by("z/"@)->0 =~= "・"@);
    }
    assert(right(standard_list()[213])) by {
        reveal_strlit("zh");
        reveal_strlit("←");
        assert("zh"@.drop_last() =~= seq!['z']);
        assert(said_by("zh"@)->0 =~= "←"@);
    }
    assert(right(standard_list()[214])) by {
        reveal_strlit("zj");
        reveal_strlit("↓");
        assert("zj"@.drop_last() =~= seq!['z']);
        assert(said_by("zj"@)->0 =~= "↓"@);
    }
    assert(right(standard_list()[215])) by {
        reveal_strlit("zk");
        reveal_strlit("↑");
        assert("zk"@.drop_last() =~= seq!['z']);
        assert(said_by("zk"@)->0 =~= "↑"@);
    }
    assert(right(standard_list()[216])) by {
        reveal_strlit("zl");
        reveal_strlit("→");
        assert("zl"@.drop_last() =~= seq!['z']);
        assert(said_by("zl"@)->0 =~= "→"@);
    }
    assert forall|i: int| 210 <= i < 217 implies right(#[trigger] standard_list()[i]) by {
        assert(i == 210 || i == 211 || i == 212 || i == 213 || i == 214 || i == 215 || i == 216);
    }
}

proof fn lemma_rows()
    ensures
        standard_list().len() == 217,
        forall|i: int| 0 <= i < standard_list().len() ==> right(#[trigger] standard_list()[i]),
{
    lemma_rows_a();
    lemma_rows_b();
    lemma_rows_c();
    lemma_rows_d();
    lemma_rows_e();
    lemma_rows_f();
    lemma_rows_g();
    lemma_rows_h();
    lemma_rows_i();
    lemma_rows_j();
    lemma_rows_k();
    lemma_rows_l();
    lemma_rows_m();
    lemma_rows_n();
    lemma_rows_o();
    lemma_rows_p();
}

proof fn lemma_row_says(key: Seq<char>, i: int)
    requires
        0 <= i <= standard().len(),
    ensures
        kana_from(standard(), key, i) is Some ==> kana_from(standard(), key, i) == said_by(key),
    decreases standard().len() - i,
{
    if i < standard().len() {
        lemma_rows();
        assert(right(standard_list()[i]));
        assert(standard()[i] == (standard_list()[i].0@, standard_list()[i].1@));
        lemma_row_says(key, i + 1);
    }
}

/// The standard spellings go by the order of the kana: a consonant and a vowel are the kana of
/// that consonant at the place of the vowel; with a y between them they are its kana in i and
/// a small one; the other consonants and the signs likewise.
pub proof fn law_spellings_go_by_the_order_of_the_kana(key: Seq<char>)
    ensures
        kana_of(standard(), key) is Some ==> kana_of(standard(), key) == said_by(key),
{
    lemma_row_says(key, 0);
}


/// In AZIK small kana are spelled with an l where the standard spellings have an x.
pub proof fn law_small_kana_take_an_l(i: int)
    requires
        0 <= i < azik_small().len(),
    ensures
        azik_small()[i].0@.len() == azik_small()[i].1@.len(),
        azik_small()[i].0@ == azik_small()[i].1@.update(0, 'l'),
        azik_small()[i].1@[0] == 'x',
{
    reveal(azik_small);
    if i == 0 {
        reveal_strlit("la");
        reveal_strlit("xa");
        assert("la"@ =~= "xa"@.update(0, 'l'));
    } else if i == 1 {
        reveal_strlit("li");
        reveal_strlit("xi");
        assert("li"@ =~= "xi"@.update(0, 'l'));
    } else if i == 2 {
        reveal_strlit("lu");
        reveal_strlit("xu");
        assert("lu"@ =~= "xu"@.update(0, 'l'));
    } else if i == 3 {
        reveal_strlit("le");
        reveal_strlit("xe");
        assert("le"@ =~= "xe"@.update(0, 'l'));
    } else if i == 4 {
        reveal_strlit("lo");
        reveal_strlit("xo");
        assert("lo"@ =~= "xo"@.update(0, 'l'));
    } else if i == 5 {
        reveal_strlit("lya");
        reveal_strlit("xya");
        assert("lya"@ =~= "xya"@.update(0, 'l'));
    } else if i == 6 {
        reveal_strlit("lyu");
        reveal_strlit("xyu");
        assert("lyu"@ =~= "xyu"@.update(0, 'l'));
    } else if i == 7 {
        reveal_strlit("lyo");
        reveal_strlit("xyo");
        assert("lyo"@ =~= "xyo"@.update(0, 'l'));
    } else if i == 8 {
        reveal_strlit("lwa");
        reveal_strlit("xwa");
        assert("lwa"@ =~= "xwa"@.update(0, 'l'));
    } else if i == 9 {
        reveal_strlit("ltu");
        reveal_strlit("xtu");
        assert("ltu"@ =~= "xtu"@.update(0, 'l'));
    }
}

/// In AZIK a frequent pair of kana is spelled with the consonants of the two.
pub proof fn law_pairs_are_spelled_by_their_consonants(i: int)
    requires
        0 <= i < azik_words().len(),
    ensures
        ({
            let (key, word) = azik_words()[i];
            &&& word@.len() == 4
            &&& key@ == seq![word@[0], word@[2]]
            &&& vowel(word@[1]) is Some && vowel(word@[3]) is Some
            &&& vowel(word@[0]) is None && vowel(word@[2]) is None
        }),
{
    reveal(azik_words);
    if i == 0 {
        reveal_strlit("kt");
        reveal_strlit("koto");
        assert("kt"@ =~= seq!['k', 't']);
    } else if i == 1 {
        reveal_strlit("st");
        reveal_strlit("sita");
        assert("st"@ =~= seq!['s', 't']);
    } else if i == 2 {
        reveal_strlit("tt");
        reveal_strlit("tati");
        assert("tt"@ =~= seq!['t', 't']);
    } else if i == 3 {
        reveal_strlit("ht");
        reveal_strlit("hito");
        assert("ht"@ =~= seq!['h', 't']);
    } else if i == 4 {
        reveal_strlit("wt");
        reveal_strlit("wata");
        assert("wt"@ =~= seq!['w', 't']);
    } else if i == 5 {
        reveal_strlit("mn");
        reveal_strlit("mono");
        assert("mn"@ =~= seq!['m', 'n']);
    } else if i == 6 {
        reveal_strlit("ms");
        reveal_strlit("masu");
        assert("ms"@ =~= seq!['m', 's']);
    } else if i == 7 {
        reveal_strlit("ds");
        reveal_strlit("desu");
        assert("ds"@ =~= seq!['d', 's']);
    } else if i == 8 {
        reveal_strlit("km");
        reveal_strlit("kamo");
        assert("km"@ =~= seq!['k', 'm']);
    } else if i == 9 {
        reveal_strlit("tm");
        reveal_strlit("tame");
        assert("tm"@ =~= seq!['t', 'm']);
    } else if i == 10 {
        reveal_strlit("dm");
        reveal_strlit("demo");
        assert("dm"@ =~= seq!['d', 'm']);
    } else if i == 11 {
        reveal_strlit("kr");
        reveal_strlit("kara");
        assert("kr"@ =~= seq!['k', 'r']);
    } else if i == 12 {
        reveal_strlit("sr");
        reveal_strlit("suru");
        assert("sr"@ =~= seq!['s', 'r']);
    } else if i == 13 {
        reveal_strlit("tr");
        reveal_strlit("tara");
        assert("tr"@ =~= seq!['t', 'r']);
    } else if i == 14 {
        reveal_strlit("nr");
        reveal_strlit("naru");
        assert("nr"@ =~= seq!['n', 'r']);
    } else if i == 15 {
        reveal_strlit("yr");
        reveal_strlit("yoru");
        assert("yr"@ =~= seq!['y', 'r']);
    } else if i == 16 {
        reveal_strlit("rr");
        reveal_strlit("rare");
        assert("rr"@ =~= seq!['r', 'r']);
    } else if i == 17 {
        reveal_strlit("zr");
        reveal_strlit("zaru");
        assert("zr"@ =~= seq!['z', 'r']);
    } else if i == 18 {
        reveal_strlit("mt");
        reveal_strlit("mata");
        assert("mt"@ =~= seq!['m', 't']);
    } else if i == 19 {
        reveal_strlit("tb");
        reveal_strlit("tabi");
        assert("tb"@ =~= seq!['t', 'b']);
    } else if i == 20 {
        reveal_strlit("nb");
        reveal_strlit("neba");
        assert("nb"@ =~= seq!['n', 'b']);
    } else if i == 21 {
        reveal_strlit("bt");
        reveal_strlit("bito");
        assert("bt"@ =~= seq!['b', 't']);
    } else if i == 22 {
        reveal_strlit("gr");
        reveal_strlit("gara");
        assert("gr"@ =~= seq!['g', 'r']);
    } else if i == 23 {
        reveal_strlit("gt");
        reveal_strlit("goto");
        assert("gt"@ =~= seq!['g', 't']);
    } else if i == 24 {
        reveal_strlit("nt");
        reveal_strlit("niti");
        assert("nt"@ =~= seq!['n', 't']);
    } else if i == 25 {
        reveal_strlit("dt");
        reveal_strlit("dati");
        assert("dt"@ =~= seq!['d', 't']);
    } else if i == 26 {
        reveal_strlit("wr");
        reveal_strlit("ware");
        assert("wr"@ =~= seq!['w', 'r']);
    }
}

} // verus!
