//! Numbers inside a reading.
//!
//! The digits of a reading are replaced by `#` before the dictionary is asked, and
//! each `#N` of a candidate is turned back into the number, written in style `N`.
//!
//! | style | 1234 becomes | use |
//! |---|---|---|
//! | `#0` | 1234 | as typed |
//! | `#1` | １２３４ | full-width digits |
//! | `#2` | 一二三四 | kanji digits, one by one |
//! | `#3` | 千二百三十四 | kanji with places |
//! | `#5` | 壱阡弐百参拾四 | formal kanji with places |
//! | `#8` | 1,234 | grouped by three |
//! | `#9` | (two digits only) | shogi squares |
//!
//! `#4`, which would ask the dictionary again, is left as the plain number.
use vstd::prelude::*;
use vstd::string::*;
use crate::text::{
    chars_of, digit, is_digit, lemma_skip_next, lemma_take_next, shift_up, shifted, slice_text,
    texts,
};

verus! {

pub const KANSUJI_DIGITS: [&'static str; 10] = [
    "", "一", "二", "三", "四", "五", "六", "七", "八", "九",
];

pub const KANSUJI_UNITS: [&'static str; 4] = ["", "十", "百", "千"];

pub const KANSUJI_BIG: [&'static str; 5] = ["", "万", "億", "兆", "京"];

pub const DAIJI_DIGITS: [&'static str; 10] = [
    "", "壱", "弐", "参", "四", "五", "六", "七", "八", "九",
];

pub const DAIJI_UNITS: [&'static str; 4] = ["", "拾", "百", "阡"];

pub const DAIJI_BIG: [&'static str; 5] = ["", "萬", "億", "兆", "京"];

/// How many digits `s` starts with.
pub open spec fn digit_run(s: Seq<char>) -> nat
    decreases s.len(),
{
    if s.len() > 0 && digit(s[0]) {
        1 + digit_run(s.skip(1))
    } else {
        0
    }
}

/// A run of digits is part of the text it starts.
pub proof fn lemma_digit_run(s: Seq<char>)
    ensures
        digit_run(s) <= s.len(),
        forall|i: int| 0 <= i < digit_run(s) ==> digit(#[trigger] s[i]),
        digit_run(s) < s.len() ==> !digit(s[digit_run(s) as int]),
        digit_run(s) > 0 <==> (s.len() > 0 && digit(s[0])),
    decreases s.len(),
{
    if s.len() > 0 && digit(s[0]) {
        let t = s.skip(1);
        lemma_digit_run(t);
        assert forall|i: int| 0 <= i < digit_run(s) implies digit(#[trigger] s[i]) by {
            if i > 0 {
                assert(s[i] == t[i - 1]);
            }
        }
        if digit_run(s) < s.len() {
            assert(s[digit_run(s) as int] == t[digit_run(t) as int]);
        }
    }
}

/// The reading with every run of digits replaced by one `#`.
pub open spec fn abstracted(s: Seq<char>) -> Seq<char>
    decreases s.len(),
    via abstracted_decreases
{
    if s.len() == 0 {
        seq![]
    } else if digit(s[0]) {
        seq!['#'] + abstracted(s.skip(digit_run(s) as int))
    } else {
        seq![s[0]] + abstracted(s.skip(1))
    }
}

#[via_fn]
proof fn abstracted_decreases(s: Seq<char>) {
    lemma_digit_run(s);
}

/// The runs of digits of a reading, from left to right.
pub open spec fn numbers(s: Seq<char>) -> Seq<Seq<char>>
    decreases s.len(),
    via numbers_decreases
{
    if s.len() == 0 {
        seq![]
    } else if digit(s[0]) {
        seq![s.take(digit_run(s) as int)] + numbers(s.skip(digit_run(s) as int))
    } else {
        numbers(s.skip(1))
    }
}

#[via_fn]
proof fn numbers_decreases(s: Seq<char>) {
    lemma_digit_run(s);
}

/// `key` with its `#`s replaced, in order, by `nums`.
pub open spec fn refilled(key: Seq<char>, nums: Seq<Seq<char>>) -> Seq<char>
    decreases key.len(),
{
    if key.len() == 0 {
        seq![]
    } else if key[0] == '#' && nums.len() > 0 {
        nums[0] + refilled(key.skip(1), nums.skip(1))
    } else {
        seq![key[0]] + refilled(key.skip(1), nums)
    }
}

/// Putting the numbers back where they were taken out gives the reading again, for every
/// reading that holds no `#` of its own.
pub proof fn law_numbers_go_back(s: Seq<char>)
    requires
        !s.contains('#'),
    ensures
        refilled(abstracted(s), numbers(s)) == s,
    decreases s.len(),
{
    reveal_with_fuel(refilled, 2);
    lemma_digit_run(s);
    if s.len() == 0 {
    } else {
        let n: int = if digit(s[0]) {
            digit_run(s) as int
        } else {
            1
        };
        let t = s.skip(n);
        assert forall|i: int| 0 <= i < t.len() implies t[i] != '#' by {
            assert(s.contains(s[i + n]));
        }
        law_numbers_go_back(t);
        assert(s.contains(s[0]));
        let key = abstracted(s);
        assert(key.skip(1) =~= abstracted(t));
        if digit(s[0]) {
            assert(numbers(s).skip(1) =~= numbers(t));
            assert(s.take(n) + t =~= s);
        } else {
            assert(seq![s[0]] + t =~= s);
        }
    }
}

/// The reading to ask the dictionary for holds no digit.
pub proof fn law_abstracted_has_no_digit(s: Seq<char>)
    ensures
        forall|i: int| 0 <= i < abstracted(s).len() ==> !digit(#[trigger] abstracted(s)[i]),
    decreases s.len(),
{
    lemma_digit_run(s);
    if s.len() == 0 {
    } else {
        let n: int = if digit(s[0]) {
            digit_run(s) as int
        } else {
            1
        };
        let rest = abstracted(s.skip(n));
        law_abstracted_has_no_digit(s.skip(n));
        assert forall|i: int| 0 <= i < abstracted(s).len() implies !digit(
            #[trigger] abstracted(s)[i],
        ) by {
            if i > 0 {
                assert(abstracted(s)[i] == rest[i - 1]);
            }
        }
    }
}

/// A digit written full-width.
pub open spec fn zenkaku_of(c: char) -> char {
    if digit(c) {
        shifted(c, '０' as u32 - '0' as u32)
    } else {
        c
    }
}

/// A digit written in kanji.
pub open spec fn kansuji_of(c: char) -> char {
    match c {
        '0' => '〇',
        '1' => '一',
        '2' => '二',
        '3' => '三',
        '4' => '四',
        '5' => '五',
        '6' => '六',
        '7' => '七',
        '8' => '八',
        '9' => '九',
        _ => c,
    }
}

/// The values of the digits of a text, everything else left out.
pub open spec fn digit_values(s: Seq<char>) -> Seq<u8> {
    s.filter(|c: char| digit(c)).map_values(|c: char| (c as u32 - '0' as u32) as u8)
}

/// A number without its leading zeros.
pub open spec fn significant(ds: Seq<u8>) -> Seq<u8>
    decreases ds.len(),
{
    if ds.len() > 0 && ds[0] == 0 {
        significant(ds.skip(1))
    } else {
        ds
    }
}

/// The name of a single digit.
pub open spec fn digit_name(d: int, formal: bool) -> Seq<char> {
    if formal {
        DAIJI_DIGITS@[d]@
    } else {
        KANSUJI_DIGITS@[d]@
    }
}

/// The name of the place `unit` inside a group of four: nothing, ten, hundred, thousand.
pub open spec fn unit_name(unit: int, formal: bool) -> Seq<char> {
    if formal {
        DAIJI_UNITS@[unit]@
    } else {
        KANSUJI_UNITS@[unit]@
    }
}

/// The name of the group `level`: nothing, 10^4, 10^8, 10^12, 10^16.
pub open spec fn group_name(level: int, formal: bool) -> Seq<char> {
    if formal {
        DAIJI_BIG@[level]@
    } else {
        KANSUJI_BIG@[level]@
    }
}

/// A digit and its place. Zero is not written, and the plain style omits a leading one.
pub open spec fn placed(d: u8, unit: int, formal: bool) -> Seq<char> {
    if d == 0 {
        seq![]
    } else if d == 1 && unit > 0 && !formal {
        unit_name(unit, formal)
    } else {
        digit_name(d as int, formal) + unit_name(unit, formal)
    }
}

/// The first `n` digits of a group of at most four, with their places.
pub open spec fn group_text(g: Seq<u8>, n: int, formal: bool) -> Seq<char>
    decreases n,
{
    if n <= 0 {
        seq![]
    } else {
        group_text(g, n - 1, formal) + placed(g[n - 1], g.len() - n, formal)
    }
}

/// A whole number written in groups of four from the right; `level` names the last group.
pub open spec fn grouped_by_four(ds: Seq<u8>, level: int, formal: bool) -> Seq<char>
    decreases ds.len(),
{
    if ds.len() == 0 {
        seq![]
    } else {
        let cut = if ds.len() > 4 {
            ds.len() - 4
        } else {
            0
        };
        let g = ds.skip(cut);
        let body = group_text(g, g.len() as int, formal);
        grouped_by_four(ds.take(cut), level + 1, formal) + if body.len() == 0 {
            seq![]
        } else {
            body + group_name(level, formal)
        }
    }
}

/// A number written with places. What is too long for the names falls back to single digits.
pub open spec fn positional_text(n: Seq<char>, formal: bool) -> Seq<char> {
    let ds = significant(digit_values(n));
    if ds.len() == 0 {
        if formal {
            "零"@
        } else {
            "〇"@
        }
    } else if ds.len() > 20 {
        n.map_values(|c: char| kansuji_of(c))
    } else {
        grouped_by_four(ds, 0, formal)
    }
}

/// The first `n` digits with a comma before every third place counted from the right.
pub open spec fn comma_text(ds: Seq<char>, n: int) -> Seq<char>
    decreases n,
{
    if n <= 0 {
        seq![]
    } else if n > 1 && (ds.len() - (n - 1)) % 3 == 0 {
        comma_text(ds, n - 1).push(',').push(ds[n - 1])
    } else {
        comma_text(ds, n - 1).push(ds[n - 1])
    }
}

/// The digits of a text grouped by three.
pub open spec fn grouped_text(n: Seq<char>) -> Seq<char> {
    let ds = n.filter(|c: char| digit(c));
    comma_text(ds, ds.len() as int)
}

/// A square of the shogi board: 34 is ３四.
pub open spec fn shogi_text(n: Seq<char>) -> Seq<char> {
    if n.len() == 2 {
        seq![zenkaku_of(n[0]), kansuji_of(n[1])]
    } else {
        n
    }
}

/// The number `n` written in the style named by the digit `style`.
pub open spec fn converted(n: Seq<char>, style: char) -> Seq<char> {
    match style {
        '1' => n.map_values(|c: char| zenkaku_of(c)),
        '2' => n.map_values(|c: char| kansuji_of(c)),
        '3' => positional_text(n, false),
        '5' => positional_text(n, true),
        '8' => grouped_text(n),
        '9' => shogi_text(n),
        _ => n,
    }
}

/// A candidate with its `#N` replaced, in order, by the numbers. When no number is left
/// the mark stays as it is.
pub open spec fn expanded(text: Seq<char>, nums: Seq<Seq<char>>) -> Seq<char>
    decreases text.len(),
{
    if text.len() == 0 {
        seq![]
    } else if text[0] == '#' && text.len() > 1 && digit(text[1]) && nums.len() > 0 {
        converted(nums[0], text[1]) + expanded(text.skip(2), nums.skip(1))
    } else {
        seq![text[0]] + expanded(text.skip(1), nums)
    }
}

/// Without numbers, and without a mark, a candidate is shown as it is.
pub proof fn law_nothing_to_expand(text: Seq<char>, nums: Seq<Seq<char>>)
    requires
        nums.len() == 0 || !text.contains('#'),
    ensures
        expanded(text, nums) == text,
    decreases text.len(),
{
    if text.len() > 0 {
        assert(text.contains(text[0]));
        let t = text.skip(1);
        assert forall|i: int| nums.len() > 0 && 0 <= i < t.len() implies t[i] != '#' by {
            assert(text.contains(text[i + 1]));
        }
        law_nothing_to_expand(t, nums);
        assert(seq![text[0]] + t =~= text);
    }
}

/// The commas are all that grouping adds.
pub proof fn law_grouping_adds_only_commas(ds: Seq<char>, n: int)
    requires
        0 <= n <= ds.len(),
        forall|i: int| 0 <= i < ds.len() ==> digit(#[trigger] ds[i]),
    ensures
        comma_text(ds, n).filter(|c: char| c != ',') == ds.take(n),
    decreases n,
{
    broadcast use Seq::lemma_filter_push;

    let keep = |c: char| c != ',';
    if n > 0 {
        law_grouping_adds_only_commas(ds, n - 1);
        lemma_take_next(ds, n - 1);
        assert(digit(ds[n - 1]));
        assert(comma_text(ds, n - 1).push(',').filter(keep) =~= comma_text(ds, n - 1).filter(keep));
    } else {
        assert(comma_text(ds, n).filter(keep) =~= seq![]);
        assert(ds.take(0) =~= seq![]);
    }
}

/// Replaces the digits of a reading by `#` and returns the numbers taken out, in order.
pub fn abstract_numbers(reading: &str) -> (r: (String, Vec<String>))
    ensures
        r.0@ == abstracted(reading@),
        texts(r.1@) == numbers(reading@),
{
    let v = chars_of(reading);
    let mut key: String = String::new();
    let mut nums: Vec<String> = Vec::new();
    let mut i: usize = 0;
    assert(v@.skip(0) =~= v@);
    while i < v.len()
        invariant
            i <= v@.len(),
            v@ == reading@,
            key@ + abstracted(v@.skip(i as int)) == abstracted(reading@),
            texts(nums@) + numbers(v@.skip(i as int)) == numbers(reading@),
        decreases v.len() - i,
    {
        let ghost before = i as int;
        let ghost key0 = key@;
        let ghost nums0 = texts(nums@);
        proof {
            lemma_digit_run(v@.skip(before));
            lemma_skip_next(v@, before);
        }
        if is_digit(v[i]) {
            let mut j: usize = i;
            while j < v.len() && is_digit(v[j])
                invariant
                    i <= j <= v@.len(),
                    digit_run(v@.skip(i as int)) == (j - i) + digit_run(v@.skip(j as int)),
                decreases v.len() - j,
            {
                proof {
                    lemma_skip_next(v@, j as int);
                }
                j = j + 1;
            }
            key.push('#');
            let n = slice_text(&v, i, j);
            nums.push(n);
            proof {
                let s = v@.skip(before);
                lemma_digit_run(v@.skip(j as int));
                if j < v@.len() {
                    assert(v@.skip(j as int)[0] == v@[j as int]);
                }
                assert(s.skip(j - i) =~= v@.skip(j as int));
                assert(s.take(j - i) =~= v@.subrange(before, j as int));
                assert(texts(nums@) =~= nums0.push(n@));
                assert(key@ + abstracted(v@.skip(j as int)) =~= key0 + abstracted(s));
                assert(texts(nums@) + numbers(v@.skip(j as int)) =~= nums0 + numbers(s));
            }
            i = j;
        } else {
            key.push(v[i]);
            i = i + 1;
            proof {
                assert(key@ + abstracted(v@.skip(i as int)) =~= key0 + abstracted(v@.skip(before)));
            }
        }
    }
    proof {
        assert(v@.skip(i as int) =~= seq![]);
        assert(key@ + abstracted(v@.skip(i as int)) =~= key@);
        assert(texts(nums@) + numbers(v@.skip(i as int)) =~= texts(nums@));
    }
    (key, nums)
}

/// Replaces each `#N` of a candidate by the next of the numbers, written in style `N`.
pub fn expand(text: &str, nums: &Vec<String>) -> (r: String)
    ensures
        r@ == expanded(text@, texts(nums@)),
{
    let v = chars_of(text);
    let ghost ns = texts(nums@);
    let mut out: String = String::new();
    let mut used: usize = 0;
    let mut i: usize = 0;
    proof {
        assert(v@.skip(0) =~= v@);
        assert(ns.skip(0) =~= ns);
        assert(out@ + expanded(v@, ns) =~= expanded(v@, ns));
    }
    while i < v.len()
        invariant
            i <= v@.len(),
            used <= nums@.len(),
            v@ == text@,
            ns == texts(nums@),
            out@ + expanded(v@.skip(i as int), ns.skip(used as int)) == expanded(text@, ns),
        decreases v.len() - i,
    {
        let ghost s = v@.skip(i as int);
        let ghost rest = ns.skip(used as int);
        let ghost out0 = out@;
        proof {
            lemma_skip_next(v@, i as int);
        }
        let c = v[i];
        if c == '#' && i + 1 < v.len() && is_digit(v[i + 1]) && used < nums.len() {
            proof {
                assert(s[1] == v@[i + 1]);
                assert(s.skip(2) =~= v@.skip(i + 2));
                lemma_skip_next(ns, used as int);
            }
            let n = convert(nums[used].as_str(), v[i + 1]);
            out.append(n.as_str());
            used = used + 1;
            i = i + 2;
        } else {
            proof {
                if i + 1 < v.len() {
                    assert(s[1] == v@[i + 1]);
                }
            }
            out.push(c);
            i = i + 1;
        }
        proof {
            assert(out@ + expanded(v@.skip(i as int), ns.skip(used as int)) =~= out0 + expanded(
                s,
                rest,
            ));
        }
    }
    proof {
        assert(v@.skip(i as int) =~= seq![]);
        assert(out@ + expanded(v@.skip(i as int), ns.skip(used as int)) =~= out@);
    }
    out
}

/// One number in the style named by the digit `style`.
fn convert(n: &str, style: char) -> (r: String)
    ensures
        r@ == converted(n@, style),
{
    match style {
        '1' => {
            let v = chars_of(n);
            let mut out: String = String::new();
            for i in 0..v.len()
                invariant
                    out@ == v@.take(i as int).map_values(|c: char| zenkaku_of(c)),
            {
                out.push(zenkaku_digit(v[i]));
                proof {
                    lemma_take_next(v@, i as int);
                    assert(out@ =~= v@.take(i + 1).map_values(|c: char| zenkaku_of(c)));
                }
            }
            assert(v@.take(v@.len() as int) =~= v@);
            out
        },
        '2' => kansuji_digits(n),
        '3' => positional(n, false),
        '5' => positional(n, true),
        '8' => grouped(n),
        '9' => shogi(n),
        _ => n.to_owned(),
    }
}

fn kansuji_digits(n: &str) -> (r: String)
    ensures
        r@ == n@.map_values(|c: char| kansuji_of(c)),
{
    let v = chars_of(n);
    let mut out: String = String::new();
    for i in 0..v.len()
        invariant
            out@ == v@.take(i as int).map_values(|c: char| kansuji_of(c)),
    {
        out.push(kansuji_digit(v[i]));
        proof {
            lemma_take_next(v@, i as int);
            assert(out@ =~= v@.take(i + 1).map_values(|c: char| kansuji_of(c)));
        }
    }
    assert(v@.take(v@.len() as int) =~= v@);
    out
}

fn zenkaku_digit(c: char) -> (r: char)
    ensures
        r == zenkaku_of(c),
{
    if is_digit(c) {
        shift_up(c, '０' as u32 - '0' as u32)
    } else {
        c
    }
}

fn kansuji_digit(c: char) -> (r: char)
    ensures
        r == kansuji_of(c),
{
    match c {
        '0' => '〇',
        '1' => '一',
        '2' => '二',
        '3' => '三',
        '4' => '四',
        '5' => '五',
        '6' => '六',
        '7' => '七',
        '8' => '八',
        '9' => '九',
        _ => c,
    }
}

/// The number with places: groups of four joined by 万, 億, 兆 and 京.
fn positional(n: &str, formal: bool) -> (r: String)
    ensures
        r@ == positional_text(n@, formal),
{
    let v = chars_of(n);
    let ghost values = digit_values(n@);
    let mut ds: Vec<u8> = Vec::new();
    for i in 0..v.len()
        invariant
            v@ == n@,
            ds@ == digit_values(v@.take(i as int)),
            forall|j: int| 0 <= j < ds@.len() ==> #[trigger] ds@[j] <= 9,
    {
        broadcast use Seq::lemma_filter_push;

        let c = v[i];
        proof {
            lemma_take_next(v@, i as int);
        }
        if is_digit(c) {
            ds.push((c as u32 - '0' as u32) as u8);
        }
        proof {
            assert(ds@ =~= digit_values(v@.take(i + 1)));
        }
    }
    proof {
        assert(v@.take(v@.len() as int) =~= v@);
        assert(ds@.skip(0) =~= ds@);
    }
    let mut start: usize = 0;
    while start < ds.len() && ds[start] == 0
        invariant
            start <= ds@.len(),
            significant(ds@) == significant(ds@.skip(start as int)),
        decreases ds.len() - start,
    {
        proof {
            lemma_skip_next(ds@, start as int);
        }
        start = start + 1;
    }
    let ghost all = ds@.skip(start as int);
    proof {
        if start < ds@.len() {
            assert(all[0] == ds@[start as int]);
        }
        assert(significant(ds@) == all);
    }
    let len: usize = ds.len() - start;
    if len == 0 {
        return if formal {
            "零".to_owned()
        } else {
            "〇".to_owned()
        };
    }
    if len > 20 {
        return kansuji_digits(n);
    }
    let mut level: usize = (len + 3) / 4;
    let mut out: String = String::new();
    assert(all.take(0) =~= seq![]);
    while level > 0
        invariant
            start + len == ds.len(),
            len == all.len(),
            all == ds@.skip(start as int),
            len <= 20,
            level <= 5,
            4 * level < len + 4,
            forall|j: int| 0 <= j < ds@.len() ==> #[trigger] ds@[j] <= 9,
            out@ == grouped_by_four(
                all.take(
                    if 4 * level >= len {
                        0
                    } else {
                        len - 4 * level
                    },
                ),
                level as int,
                formal,
            ),
        decreases level,
    {
        let from: usize = if 4 * level >= len {
            0
        } else {
            len - 4 * level
        };
        let to: usize = len - 4 * (level - 1);
        let body = group4(&ds, start + from, start + to, formal);
        proof {
            let g = ds@.subrange(start + from, start + to);
            let part = all.take(to as int);
            assert(part.skip(from as int) =~= g);
            assert(part.take(from as int) =~= all.take(from as int));
        }
        level = level - 1;
        let ghost out0 = out@;
        if !body.as_str().is_empty() {
            out.append(body.as_str());
            if formal {
                out.append(DAIJI_BIG[level]);
            } else {
                out.append(KANSUJI_BIG[level]);
            }
            assert(out@ =~= out0 + (body@ + group_name(level as int, formal)));
        } else {
            assert(body@.len() == 0);
            assert(out@ =~= out0 + seq![]);
        }
    }
    assert(all.take(len as int) =~= all);
    out
}

/// Up to four digits with their places.
fn group4(ds: &Vec<u8>, from: usize, to: usize, formal: bool) -> (r: String)
    requires
        from <= to <= ds@.len(),
        to - from <= 4,
        forall|j: int| 0 <= j < ds@.len() ==> #[trigger] ds@[j] <= 9,
    ensures
        r@ == group_text(ds@.subrange(from as int, to as int), to - from, formal),
{
    let ghost g = ds@.subrange(from as int, to as int);
    let mut out: String = String::new();
    let mut i: usize = from;
    while i < to
        invariant
            from <= i <= to <= ds@.len(),
            to - from <= 4,
            g == ds@.subrange(from as int, to as int),
            forall|j: int| 0 <= j < ds@.len() ==> #[trigger] ds@[j] <= 9,
            out@ == group_text(g, i - from, formal),
        decreases to - i,
    {
        let d: u8 = ds[i];
        let unit: usize = to - 1 - i;
        let ghost out0 = out@;
        assert(g[i - from] == ds@[i as int]);
        if d != 0 {
            if !(d == 1 && unit > 0 && !formal) {
                if formal {
                    out.append(DAIJI_DIGITS[d as usize]);
                } else {
                    out.append(KANSUJI_DIGITS[d as usize]);
                }
            }
            if formal {
                out.append(DAIJI_UNITS[unit]);
            } else {
                out.append(KANSUJI_UNITS[unit]);
            }
        }
        i = i + 1;
        assert(out@ =~= out0 + placed(d, unit as int, formal));
    }
    out
}

/// The digits with a `,` every three places.
fn grouped(n: &str) -> (r: String)
    ensures
        r@ == grouped_text(n@),
{
    let v = chars_of(n);
    let mut ds: Vec<char> = Vec::new();
    for i in 0..v.len()
        invariant
            v@ == n@,
            ds@ == v@.take(i as int).filter(|c: char| digit(c)),
    {
        broadcast use Seq::lemma_filter_push;

        proof {
            lemma_take_next(v@, i as int);
        }
        if is_digit(v[i]) {
            ds.push(v[i]);
        }
    }
    assert(v@.take(v@.len() as int) =~= v@);
    let mut out: String = String::new();
    let mut i: usize = 0;
    while i < ds.len()
        invariant
            i <= ds@.len(),
            out@ == comma_text(ds@, i as int),
        decreases ds.len() - i,
    {
        if i > 0 && (ds.len() - i) % 3 == 0 {
            out.push(',');
        }
        out.push(ds[i]);
        i = i + 1;
    }
    out
}

/// A shogi square: two digits become a full-width digit and a kanji digit.
fn shogi(n: &str) -> (r: String)
    ensures
        r@ == shogi_text(n@),
{
    let v = chars_of(n);
    if v.len() != 2 {
        return n.to_owned();
    }
    let mut out: String = String::new();
    out.push(zenkaku_digit(v[0]));
    out.push(kansuji_digit(v[1]));
    assert(out@ =~= shogi_text(n@));
    out
}

} // verus!
