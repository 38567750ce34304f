//! The spellings of romaji input, standard and AZIK, and the half-width katakana.
use vstd::prelude::*;

verus! {

/// The standard spellings and their kana.
pub const TABLE: [(&'static str, &'static str); 217] = [
    ("a", "あ"), ("i", "い"), ("u", "う"), ("e", "え"), ("o", "お"), ("ka", "か"),
    ("ki", "き"), ("ku", "く"), ("ke", "け"), ("ko", "こ"), ("kya", "きゃ"), ("kyi", "きぃ"),
    ("kyu", "きゅ"), ("kye", "きぇ"), ("kyo", "きょ"), ("ga", "が"), ("gi", "ぎ"), ("gu", "ぐ"),
    ("ge", "げ"), ("go", "ご"), ("gya", "ぎゃ"), ("gyi", "ぎぃ"), ("gyu", "ぎゅ"), ("gye", "ぎぇ"),
    ("gyo", "ぎょ"), ("sa", "さ"), ("si", "し"), ("shi", "し"), ("su", "す"), ("se", "せ"),
    ("so", "そ"), ("sya", "しゃ"), ("syi", "しぃ"), ("syu", "しゅ"), ("sye", "しぇ"), ("syo", "しょ"),
    ("sha", "しゃ"), ("shu", "しゅ"), ("she", "しぇ"), ("sho", "しょ"), ("za", "ざ"), ("zi", "じ"),
    ("zu", "ず"), ("ze", "ぜ"), ("zo", "ぞ"), ("zya", "じゃ"), ("zyi", "じぃ"), ("zyu", "じゅ"),
    ("zye", "じぇ"), ("zyo", "じょ"), ("ja", "じゃ"), ("ji", "じ"), ("ju", "じゅ"), ("je", "じぇ"),
    ("jo", "じょ"), ("jya", "じゃ"), ("jyi", "じぃ"), ("jyu", "じゅ"), ("jye", "じぇ"), ("jyo", "じょ"),
    ("ta", "た"), ("ti", "ち"), ("tu", "つ"), ("te", "て"), ("to", "と"), ("tya", "ちゃ"),
    ("tyi", "ちぃ"), ("tyu", "ちゅ"), ("tye", "ちぇ"), ("tyo", "ちょ"), ("chi", "ち"), ("cha", "ちゃ"),
    ("chu", "ちゅ"), ("che", "ちぇ"), ("cho", "ちょ"), ("tsu", "つ"), ("tsa", "つぁ"), ("tsi", "つぃ"),
    ("tse", "つぇ"), ("tso", "つぉ"), ("tha", "てゃ"), ("thi", "てぃ"), ("thu", "てゅ"), ("the", "てぇ"),
    ("tho", "てょ"), ("twu", "とぅ"), ("da", "だ"), ("di", "ぢ"), ("du", "づ"), ("de", "で"),
    ("do", "ど"), ("dya", "ぢゃ"), ("dyi", "ぢぃ"), ("dyu", "ぢゅ"), ("dye", "ぢぇ"), ("dyo", "ぢょ"),
    ("dha", "でゃ"), ("dhi", "でぃ"), ("dhu", "でゅ"), ("dhe", "でぇ"), ("dho", "でょ"), ("dwu", "どぅ"),
    ("na", "な"), ("ni", "に"), ("nu", "ぬ"), ("ne", "ね"), ("no", "の"), ("nya", "にゃ"),
    ("nyi", "にぃ"), ("nyu", "にゅ"), ("nye", "にぇ"), ("nyo", "にょ"), ("nn", "ん"), ("n'", "ん"),
    ("ha", "は"), ("hi", "ひ"), ("hu", "ふ"), ("he", "へ"), ("ho", "ほ"), ("hya", "ひゃ"),
    ("hyi", "ひぃ"), ("hyu", "ひゅ"), ("hye", "ひぇ"), ("hyo", "ひょ"), ("fu", "ふ"), ("fa", "ふぁ"),
    ("fi", "ふぃ"), ("fe", "ふぇ"), ("fo", "ふぉ"), ("fya", "ふゃ"), ("fyu", "ふゅ"), ("fyo", "ふょ"),
    ("ba", "ば"), ("bi", "び"), ("bu", "ぶ"), ("be", "べ"), ("bo", "ぼ"), ("bya", "びゃ"),
    ("byi", "びぃ"), ("byu", "びゅ"), ("bye", "びぇ"), ("byo", "びょ"), ("pa", "ぱ"), ("pi", "ぴ"),
    ("pu", "ぷ"), ("pe", "ぺ"), ("po", "ぽ"), ("pya", "ぴゃ"), ("pyi", "ぴぃ"), ("pyu", "ぴゅ"),
    ("pye", "ぴぇ"), ("pyo", "ぴょ"), ("ma", "ま"), ("mi", "み"), ("mu", "む"), ("me", "め"),
    ("mo", "も"), ("mya", "みゃ"), ("myi", "みぃ"), ("myu", "みゅ"), ("mye", "みぇ"), ("myo", "みょ"),
    ("ya", "や"), ("yu", "ゆ"), ("ye", "いぇ"), ("yo", "よ"), ("ra", "ら"), ("ri", "り"),
    ("ru", "る"), ("re", "れ"), ("ro", "ろ"), ("rya", "りゃ"), ("ryi", "りぃ"), ("ryu", "りゅ"),
    ("rye", "りぇ"), ("ryo", "りょ"), ("wa", "わ"), ("wi", "ゐ"), ("we", "ゑ"), ("wo", "を"),
    ("wha", "うぁ"), ("whi", "うぃ"), ("whe", "うぇ"), ("who", "うぉ"), ("va", "ゔぁ"), ("vi", "ゔぃ"),
    ("vu", "ゔ"), ("ve", "ゔぇ"), ("vo", "ゔぉ"), ("xa", "ぁ"), ("xi", "ぃ"), ("xu", "ぅ"),
    ("xe", "ぇ"), ("xo", "ぉ"), ("xya", "ゃ"), ("xyu", "ゅ"), ("xyo", "ょ"), ("xtu", "っ"),
    ("xtsu", "っ"), ("xwa", "ゎ"), ("xka", "ヵ"), ("xke", "ヶ"), ("-", "ー"), (".", "。"),
    (",", "、"), ("[", "「"), ("]", "」"), ("z-", "〜"), ("z[", "『"), ("z]", "』"),
    ("z,", "‥"), ("z.", "…"), ("z/", "・"), ("zh", "←"), ("zj", "↓"), ("zk", "↑"),
    ("zl", "→"),
];

/// Keys that stand for a vowel and what follows it: a syllabic n, or a double vowel.
pub const AZIK_VOWELS: [(char, &'static str); 9] = [
    ('z', "ann"), ('k', "inn"), ('j', "unn"), ('d', "enn"), ('l', "onn"),
    ('q', "ai"), ('h', "uu"), ('w', "ei"), ('p', "ou"),
];

/// The rows of sha and cha on a single key, because `sh` and `ch` are taken.
pub const AZIK_CONSONANT_ALT: [(char, &'static str); 2] = [
    ('x', "sy"), ('c', "ty"),
];

/// Small kana take a leading `l`, because `x` is a consonant here.
pub const AZIK_SMALL: [(&'static str, &'static str); 10] = [
    ("la", "xa"), ("li", "xi"), ("lu", "xu"), ("le", "xe"), ("lo", "xo"),
    ("lya", "xya"), ("lyu", "xyu"), ("lyo", "xyo"), ("lwa", "xwa"), ("ltu", "xtu"),
];

/// Rows whose contracted sounds may be typed with `g` in place of `y`.
pub const AZIK_YOUON: [char; 5] = [
    'k', 'n', 'h', 'm', 'p',
];

/// Consonants whose syllable in -ann may also be typed with `n`.
pub const AZIK_ANN_ALT: [char; 7] = [
    'd', 's', 'w', 'r', 'g', 'z', 't',
];

/// Spellings that would use one finger twice, typed with `f` in place of the vowel.
pub const AZIK_SAME_FINGER: [(&'static str, &'static str); 9] = [
    ("kf", "ki"), ("jf", "ju"), ("hf", "hu"), ("yf", "yu"), ("mf", "mu"),
    ("nf", "nu"), ("df", "de"), ("cf", "tye"), ("pf", "ponn"),
];

/// Frequent pairs of kana in two strokes.
pub const AZIK_WORDS: [(&'static str, &'static str); 27] = [
    ("kt", "koto"), ("st", "sita"), ("tt", "tati"), ("ht", "hito"), ("wt", "wata"),
    ("mn", "mono"), ("ms", "masu"), ("ds", "desu"), ("km", "kamo"), ("tm", "tame"),
    ("dm", "demo"), ("kr", "kara"), ("sr", "suru"), ("tr", "tara"), ("nr", "naru"),
    ("yr", "yoru"), ("rr", "rare"), ("zr", "zaru"), ("mt", "mata"), ("tb", "tabi"),
    ("nb", "neba"), ("bt", "bito"), ("gr", "gara"), ("gt", "goto"), ("nt", "niti"),
    ("dt", "dati"), ("wr", "ware"),
];

/// Loanwords and single spellings that the rules make awkward.
pub const AZIK_EXTRA: [(&'static str, &'static str); 10] = [
    ("wso", "who"), ("tgi", "thi"), ("dci", "dhi"), ("wf", "wai"), ("sf", "sai"),
    ("ss", "sei"), ("zc", "za"), ("zv", "zai"), ("zf", "ze"), ("zx", "zei"),
];

/// Kana that no standard spelling gives.
pub const AZIK_DIRECT: [(&'static str, &'static str); 5] = [
    ("q", "ん"), (";", "っ"), (":", "ー"), ("wp", "うぉー"), ("fp", "ふぉー"),
];

/// Katakana and punctuation that have a half-width form. A voiced mark is a character of its own.
pub const HANKAKU: [(char, &'static str); 87] = [
    ('ア', "ｱ"), ('イ', "ｲ"), ('ウ', "ｳ"), ('エ', "ｴ"), ('オ', "ｵ"), ('カ', "ｶ"),
    ('キ', "ｷ"), ('ク', "ｸ"), ('ケ', "ｹ"), ('コ', "ｺ"), ('サ', "ｻ"), ('シ', "ｼ"),
    ('ス', "ｽ"), ('セ', "ｾ"), ('ソ', "ｿ"), ('タ', "ﾀ"), ('チ', "ﾁ"), ('ツ', "ﾂ"),
    ('テ', "ﾃ"), ('ト', "ﾄ"), ('ナ', "ﾅ"), ('ニ', "ﾆ"), ('ヌ', "ﾇ"), ('ネ', "ﾈ"),
    ('ノ', "ﾉ"), ('ハ', "ﾊ"), ('ヒ', "ﾋ"), ('フ', "ﾌ"), ('ヘ', "ﾍ"), ('ホ', "ﾎ"),
    ('マ', "ﾏ"), ('ミ', "ﾐ"), ('ム', "ﾑ"), ('メ', "ﾒ"), ('モ', "ﾓ"), ('ヤ', "ﾔ"),
    ('ユ', "ﾕ"), ('ヨ', "ﾖ"), ('ラ', "ﾗ"), ('リ', "ﾘ"), ('ル', "ﾙ"), ('レ', "ﾚ"),
    ('ロ', "ﾛ"), ('ワ', "ﾜ"), ('ヲ', "ｦ"), ('ン', "ﾝ"), ('ァ', "ｧ"), ('ィ', "ｨ"),
    ('ゥ', "ｩ"), ('ェ', "ｪ"), ('ォ', "ｫ"), ('ッ', "ｯ"), ('ャ', "ｬ"), ('ュ', "ｭ"),
    ('ョ', "ｮ"), ('ガ', "ｶﾞ"), ('ギ', "ｷﾞ"), ('グ', "ｸﾞ"), ('ゲ', "ｹﾞ"), ('ゴ', "ｺﾞ"),
    ('ザ', "ｻﾞ"), ('ジ', "ｼﾞ"), ('ズ', "ｽﾞ"), ('ゼ', "ｾﾞ"), ('ゾ', "ｿﾞ"), ('ダ', "ﾀﾞ"),
    ('ヂ', "ﾁﾞ"), ('ヅ', "ﾂﾞ"), ('デ', "ﾃﾞ"), ('ド', "ﾄﾞ"), ('バ', "ﾊﾞ"), ('ビ', "ﾋﾞ"),
    ('ブ', "ﾌﾞ"), ('ベ', "ﾍﾞ"), ('ボ', "ﾎﾞ"), ('パ', "ﾊﾟ"), ('ピ', "ﾋﾟ"), ('プ', "ﾌﾟ"),
    ('ペ', "ﾍﾟ"), ('ポ', "ﾎﾟ"), ('ヴ', "ｳﾞ"), ('ー', "ｰ"), ('、', "､"), ('。', "｡"),
    ('「', "｢"), ('」', "｣"), ('・', "･"),
];

/// The standard spellings.
#[verifier::opaque]
pub open spec fn standard_list() -> Seq<(&'static str, &'static str)> {
    TABLE@
}

/// The standard spellings.
pub fn standard_list_rows() -> (r: &'static [(&'static str, &'static str)])
    ensures
        r@ == standard_list(),
{
    proof {
        reveal(standard_list);
    }
    &TABLE
}

/// The AZIK keys that stand for a vowel and more.
#[verifier::opaque]
pub open spec fn azik_vowels() -> Seq<(char, &'static str)> {
    AZIK_VOWELS@
}

/// The AZIK keys that stand for a vowel and more.
pub fn azik_vowels_rows() -> (r: &'static [(char, &'static str)])
    ensures
        r@ == azik_vowels(),
{
    proof {
        reveal(azik_vowels);
    }
    &AZIK_VOWELS
}

/// The AZIK keys for the rows of sha and cha.
#[verifier::opaque]
pub open spec fn azik_consonant_alt() -> Seq<(char, &'static str)> {
    AZIK_CONSONANT_ALT@
}

/// The AZIK keys for the rows of sha and cha.
pub fn azik_consonant_alt_rows() -> (r: &'static [(char, &'static str)])
    ensures
        r@ == azik_consonant_alt(),
{
    proof {
        reveal(azik_consonant_alt);
    }
    &AZIK_CONSONANT_ALT
}

/// The AZIK spellings of small kana.
#[verifier::opaque]
pub open spec fn azik_small() -> Seq<(&'static str, &'static str)> {
    AZIK_SMALL@
}

/// The AZIK spellings of small kana.
pub fn azik_small_rows() -> (r: &'static [(&'static str, &'static str)])
    ensures
        r@ == azik_small(),
{
    proof {
        reveal(azik_small);
    }
    &AZIK_SMALL
}

/// The rows that take `g` for `y`.
#[verifier::opaque]
pub open spec fn azik_youon() -> Seq<char> {
    AZIK_YOUON@
}

/// The rows that take `g` for `y`.
pub fn azik_youon_rows() -> (r: &'static [char])
    ensures
        r@ == azik_youon(),
{
    proof {
        reveal(azik_youon);
    }
    &AZIK_YOUON
}

/// The consonants that take `n` for -ann.
#[verifier::opaque]
pub open spec fn azik_ann_alt() -> Seq<char> {
    AZIK_ANN_ALT@
}

/// The consonants that take `n` for -ann.
pub fn azik_ann_alt_rows() -> (r: &'static [char])
    ensures
        r@ == azik_ann_alt(),
{
    proof {
        reveal(azik_ann_alt);
    }
    &AZIK_ANN_ALT
}

/// The spellings with `f`.
#[verifier::opaque]
pub open spec fn azik_same_finger() -> Seq<(&'static str, &'static str)> {
    AZIK_SAME_FINGER@
}

/// The spellings with `f`.
pub fn azik_same_finger_rows() -> (r: &'static [(&'static str, &'static str)])
    ensures
        r@ == azik_same_finger(),
{
    proof {
        reveal(azik_same_finger);
    }
    &AZIK_SAME_FINGER
}

/// The two-stroke words.
#[verifier::opaque]
pub open spec fn azik_words() -> Seq<(&'static str, &'static str)> {
    AZIK_WORDS@
}

/// The two-stroke words.
pub fn azik_words_rows() -> (r: &'static [(&'static str, &'static str)])
    ensures
        r@ == azik_words(),
{
    proof {
        reveal(azik_words);
    }
    &AZIK_WORDS
}

/// The single spellings.
#[verifier::opaque]
pub open spec fn azik_extra() -> Seq<(&'static str, &'static str)> {
    AZIK_EXTRA@
}

/// The single spellings.
pub fn azik_extra_rows() -> (r: &'static [(&'static str, &'static str)])
    ensures
        r@ == azik_extra(),
{
    proof {
        reveal(azik_extra);
    }
    &AZIK_EXTRA
}

/// The spellings given as kana.
#[verifier::opaque]
pub open spec fn azik_direct() -> Seq<(&'static str, &'static str)> {
    AZIK_DIRECT@
}

/// The spellings given as kana.
pub fn azik_direct_rows() -> (r: &'static [(&'static str, &'static str)])
    ensures
        r@ == azik_direct(),
{
    proof {
        reveal(azik_direct);
    }
    &AZIK_DIRECT
}

/// The half-width forms.
#[verifier::opaque]
pub open spec fn hankaku() -> Seq<(char, &'static str)> {
    HANKAKU@
}

/// The half-width forms.
pub fn hankaku_rows() -> (r: &'static [(char, &'static str)])
    ensures
        r@ == hankaku(),
{
    proof {
        reveal(hankaku);
    }
    &HANKAKU
}

} // verus!
