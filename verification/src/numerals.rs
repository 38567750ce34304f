//! What numbers written in kanji say.
use vstd::prelude::*;
use vstd::string::*;
use crate::num::{
    abstracted, comma_text, converted, digit_name, digit_run, digit_values, expanded, group_name,
    group_text, grouped_by_four, lemma_digit_run, numbers, placed, significant, unit_name,
};
use crate::snippet::number_value;
use crate::text::{digit, lemma_take_next};

verus! {

/// A text of digits.
pub open spec fn all_digits(n: Seq<char>) -> bool {
    forall|i: int| 0 <= i < n.len() ==> digit(#[trigger] n[i])
}

/// The value of a digit.
pub open spec fn value_of(c: char) -> int {
    c as u32 - '0' as u32
}

/// Digits written one by one keep their number, and each is the one of its value in the row
/// of the digits; what is no digit stays.
pub proof fn law_digits_are_written_one_by_one(n: Seq<char>)
    ensures
        converted(n, '1').len() == n.len(),
        converted(n, '2').len() == n.len(),
        forall|i: int|
            0 <= i < n.len() && digit(#[trigger] n[i]) ==> {
                &&& converted(n, '1')[i] == "０１２３４５６７８９"@[value_of(n[i])]
                &&& converted(n, '2')[i] == "〇一二三四五六七八九"@[value_of(n[i])]
            },
        forall|i: int|
            0 <= i < n.len() && !digit(#[trigger] n[i]) ==> converted(n, '1')[i] == n[i]
                && converted(n, '2')[i] == n[i],
{
    reveal_strlit("０１２３４５６７８９");
    reveal_strlit("〇一二三四五六七八九");
    assert forall|i: int| 0 <= i < n.len() && digit(#[trigger] n[i]) implies {
        &&& converted(n, '1')[i] == "０１２３４５６７８９"@[value_of(n[i])]
        &&& converted(n, '2')[i] == "〇一二三四五六七八九"@[value_of(n[i])]
    } by {
        let c = n[i];
        assert(c == '0' || c == '1' || c == '2' || c == '3' || c == '4' || c == '5' || c == '6' || c
            == '7' || c == '8' || c == '9');
    }
}

/// A square of the shogi board is its column in wide digits and its row in kanji; other
/// numbers stay as they are, and so does every number in the styles 0, 4, 6 and 7.
pub proof fn law_the_other_styles(n: Seq<char>)
    ensures
        n.len() == 2 ==> converted(n, '9').len() == 2 && converted(n, '9')[0] == converted(n, '1')[0]
            && converted(n, '9')[1] == converted(n, '2')[1],
        n.len() != 2 ==> converted(n, '9') == n,
        converted(n, '0') == n,
        converted(n, '4') == n,
        converted(n, '6') == n,
        converted(n, '7') == n,
{
}

/// The value of digits.
spec fn val(ds: Seq<u8>) -> nat
    decreases ds.len(),
{
    if ds.len() == 0 {
        0
    } else {
        val(ds.drop_last()) * 10 + ds.last() as nat
    }
}

/// Ten to the power of `n`.
pub open spec fn ten_to(n: nat) -> nat
    decreases n,
{
    if n == 0 {
        1
    } else {
        10 * ten_to((n - 1) as nat)
    }
}

/// The value of a kanji digit.
pub open spec fn kanji_value(c: char, formal: bool) -> Option<nat> {
    match c {
        '四' => Some(4),
        '五' => Some(5),
        '六' => Some(6),
        '七' => Some(7),
        '八' => Some(8),
        '九' => Some(9),
        '一' => if formal { None } else { Some(1) },
        '二' => if formal { None } else { Some(2) },
        '三' => if formal { None } else { Some(3) },
        '壱' => if formal { Some(1) } else { None },
        '弐' => if formal { Some(2) } else { None },
        '参' => if formal { Some(3) } else { None },
        _ => None,
    }
}

/// What a place inside a group of four is worth.
pub open spec fn kanji_place(c: char, formal: bool) -> Option<nat> {
    match c {
        '百' => Some(100),
        '十' => if formal { None } else { Some(10) },
        '千' => if formal { None } else { Some(1000) },
        '拾' => if formal { Some(10) } else { None },
        '阡' => if formal { Some(1000) } else { None },
        _ => None,
    }
}

/// What the name of a group of four is worth.
pub open spec fn kanji_group(c: char, formal: bool) -> Option<nat> {
    match c {
        '億' => Some(ten_to(8)),
        '兆' => Some(ten_to(12)),
        '京' => Some(ten_to(16)),
        '万' => if formal { None } else { Some(ten_to(4)) },
        '萬' => if formal { Some(ten_to(4)) } else { None },
        _ => None,
    }
}

/// What has been read of a number: the groups that are done, the places of this group, and
/// the digit that was read last.
pub struct Count {
    pub groups: nat,
    pub places: nat,
    pub digit: nat,
}

/// One more character of a number in kanji. A place without a digit counts once.
pub open spec fn counted(r: Count, c: char, formal: bool) -> Count {
    if kanji_value(c, formal) is Some {
        Count { digit: kanji_value(c, formal)->0, ..r }
    } else if kanji_place(c, formal) is Some {
        let times = if r.digit == 0 {
            1
        } else {
            r.digit
        };
        Count { places: r.places + times * kanji_place(c, formal)->0, digit: 0, ..r }
    } else if kanji_group(c, formal) is Some {
        Count {
            groups: r.groups + (r.places + r.digit) * kanji_group(c, formal)->0,
            places: 0,
            digit: 0,
        }
    } else {
        r
    }
}

/// What is read of a number in kanji after `r`.
pub open spec fn counted_on(r: Count, s: Seq<char>, formal: bool) -> Count
    decreases s.len(),
{
    if s.len() == 0 {
        r
    } else {
        counted(counted_on(r, s.drop_last(), formal), s.last(), formal)
    }
}

/// The number that kanji write, as one reads them aloud.
pub open spec fn kanji_number(s: Seq<char>, formal: bool) -> nat {
    let r = counted_on(Count { groups: 0, places: 0, digit: 0 }, s, formal);
    r.groups + r.places + r.digit
}

proof fn lemma_counted_add(r: Count, a: Seq<char>, b: Seq<char>, formal: bool)
    ensures
        counted_on(r, a + b, formal) == counted_on(counted_on(r, a, formal), b, formal),
    decreases b.len(),
{
    if b.len() == 0 {
        assert(a + b =~= a);
    } else {
        assert((a + b).drop_last() =~= a + b.drop_last());
        lemma_counted_add(r, a, b.drop_last(), formal);
    }
}

proof fn lemma_counted_one(r: Count, c: char, formal: bool)
    ensures
        counted_on(r, seq![c], formal) == counted(r, c, formal),
{
    assert(seq![c].drop_last() =~= seq![]);
    assert(counted_on(r, seq![c].drop_last(), formal) == r);
}

/// The names of the digits are read as the digits.
proof fn lemma_digit_name(d: int, formal: bool)
    requires
        1 <= d <= 9,
    ensures
        digit_name(d, formal).len() == 1,
        kanji_value(digit_name(d, formal)[0], formal) == Some(d as nat),
{
    reveal_strlit("一");
    reveal_strlit("二");
    reveal_strlit("三");
    reveal_strlit("四");
    reveal_strlit("五");
    reveal_strlit("六");
    reveal_strlit("七");
    reveal_strlit("八");
    reveal_strlit("九");
    reveal_strlit("壱");
    reveal_strlit("弐");
    reveal_strlit("参");
    assert(d == 1 || d == 2 || d == 3 || d == 4 || d == 5 || d == 6 || d == 7 || d == 8 || d == 9);
}

proof fn lemma_unit_name(unit: int, formal: bool)
    requires
        0 <= unit <= 3,
    ensures
        unit == 0 ==> unit_name(unit, formal).len() == 0,
        unit > 0 ==> unit_name(unit, formal).len() == 1 && kanji_place(
            unit_name(unit, formal)[0],
            formal,
        ) == Some(ten_to(unit as nat)) && kanji_value(unit_name(unit, formal)[0], formal) is None,
{
    reveal_with_fuel(ten_to, 4);
    reveal_strlit("");
    reveal_strlit("十");
    reveal_strlit("百");
    reveal_strlit("千");
    reveal_strlit("拾");
    reveal_strlit("阡");
    assert(unit == 0 || unit == 1 || unit == 2 || unit == 3);
}

proof fn lemma_group_name(level: int, formal: bool)
    requires
        0 <= level <= 4,
    ensures
        level == 0 ==> group_name(level, formal).len() == 0,
        level > 0 ==> {
            let g = group_name(level, formal);
            &&& g.len() == 1
            &&& kanji_group(g[0], formal) == Some(ten_to((4 * level) as nat))
            &&& kanji_place(g[0], formal) is None
            &&& kanji_value(g[0], formal) is None
        },
{
    reveal_strlit("");
    reveal_strlit("万");
    reveal_strlit("億");
    reveal_strlit("兆");
    reveal_strlit("京");
    reveal_strlit("萬");
    assert(level == 0 || level == 1 || level == 2 || level == 3 || level == 4);
}

proof fn lemma_placed(r: Count, d: u8, unit: int, formal: bool)
    requires
        r.digit == 0,
        d <= 9,
        0 <= unit <= 3,
    ensures
        counted_on(r, placed(d, unit, formal), formal) == (if unit == 0 {
            Count { digit: d as nat, ..r }
        } else {
            Count { places: r.places + d as nat * ten_to(unit as nat), ..r }
        }),
{
    let s = placed(d, unit, formal);
    lemma_unit_name(unit, formal);
    if d == 0 {
        assert(s =~= seq![]);
        assert(0nat * ten_to(unit as nat) == 0) by (nonlinear_arith);
    } else {
        let u = unit_name(unit, formal);
        lemma_digit_name(d as int, formal);
        let n = digit_name(d as int, formal);
        if d == 1 && unit > 0 && !formal {
            assert(u =~= seq![u[0]]);
            lemma_counted_one(r, u[0], formal);
        } else {
            assert(n =~= seq![n[0]]);
            lemma_counted_add(r, n, u, formal);
            lemma_counted_one(r, n[0], formal);
            if unit > 0 {
                assert(u =~= seq![u[0]]);
                lemma_counted_one(counted(r, n[0], formal), u[0], formal);
            } else {
                assert(u =~= seq![]);
            }
        }
    }
}

proof fn lemma_ten_to_next(n: nat)
    ensures
        ten_to(n + 1) == 10 * ten_to(n),
        ten_to(n) >= 1,
    decreases n,
{
    if n > 0 {
        lemma_ten_to_next((n - 1) as nat);
    }
}

proof fn lemma_ten_to_add(a: nat, b: nat)
    ensures
        ten_to(a + b) == ten_to(a) * ten_to(b),
    decreases a,
{
    if a > 0 {
        lemma_ten_to_add((a - 1) as nat, b);
        let x = ten_to((a - 1) as nat);
        let y = ten_to(b);
        assert(10 * (x * y) == (10 * x) * y) by (nonlinear_arith);
        assert((a + b - 1) as nat == (a - 1) as nat + b);
    } else {
        assert(1 * ten_to(b) == ten_to(b)) by (nonlinear_arith);
    }
}

/// All digits are digits.
spec fn small(ds: Seq<u8>) -> bool {
    forall|i: int| 0 <= i < ds.len() ==> #[trigger] ds[i] <= 9
}

/// A group of four is read as its value.
proof fn lemma_group_read(r: Count, g: Seq<u8>, n: int, formal: bool)
    requires
        r.places == 0,
        r.digit == 0,
        small(g),
        0 <= n <= g.len() <= 4,
    ensures
        ({
            let t = counted_on(r, group_text(g, n, formal), formal);
            &&& t.groups == r.groups
            &&& n < g.len() ==> t.digit == 0 && t.places == val(g.take(n)) * ten_to(
                (g.len() - n) as nat,
            )
            &&& n == g.len() ==> t.places + t.digit == val(g)
        }),
    decreases n,
{
    let all = group_text(g, n, formal);
    if n > 0 {
        lemma_group_read(r, g, n - 1, formal);
        let had = group_text(g, n - 1, formal);
        let d = g[n - 1];
        let unit = g.len() - n;
        let t = counted_on(r, had, formal);
        lemma_counted_add(r, had, placed(d, unit, formal), formal);
        lemma_placed(t, d, unit, formal);
        lemma_take_next(g, n - 1);
        let v = val(g.take(n - 1));
        let p = ten_to(unit as nat);
        lemma_ten_to_next(unit as nat);
        assert(val(g.take(n)) == v * 10 + d as nat);
        assert(v * (10 * p) + d as nat * p == (v * 10 + d as nat) * p) by (nonlinear_arith);
        assert((g.len() - (n - 1)) as nat == unit as nat + 1);
        if n == g.len() {
            assert(g.take(n) =~= g);
            assert(ten_to(0) == 1);
            assert(v * (10 * 1) == v * 10) by (nonlinear_arith);
        }
    } else {
        assert(g.take(0) =~= seq![]);
        assert(0nat * ten_to(g.len() as nat) == 0) by (nonlinear_arith);
        if g.len() == 0 {
            assert(g =~= seq![]);
        }
    }
}

/// A group that is not written is worth nothing.
proof fn lemma_empty_group(g: Seq<u8>, n: int, formal: bool)
    requires
        small(g),
        0 <= n <= g.len() <= 4,
        group_text(g, n, formal).len() == 0,
    ensures
        val(g.take(n)) == 0,
    decreases n,
{
    if n > 0 {
        let d = g[n - 1];
        let unit = g.len() - n;
        lemma_empty_group(g, n - 1, formal);
        lemma_take_next(g, n - 1);
        lemma_unit_name(unit, formal);
        if d != 0 {
            lemma_digit_name(d as int, formal);
        }
    } else {
        assert(g.take(0) =~= seq![]);
    }
}

proof fn lemma_val_split(a: Seq<u8>, b: Seq<u8>)
    ensures
        val(a + b) == val(a) * ten_to(b.len()) + val(b),
    decreases b.len(),
{
    if b.len() == 0 {
        assert(a + b =~= a);
        assert(val(a) * 1 == val(a)) by (nonlinear_arith);
    } else {
        let c = b.drop_last();
        lemma_val_split(a, c);
        assert((a + b).drop_last() =~= a + c);
        lemma_ten_to_next(c.len());
        let x = val(a);
        let p = ten_to(c.len());
        let y = val(c);
        assert((x * p + y) * 10 == x * (10 * p) + y * 10) by (nonlinear_arith);
    }
}

/// The groups before the last one are read as what they are worth.
proof fn lemma_groups_read(ds: Seq<u8>, level: int, formal: bool)
    requires
        small(ds),
        0 <= level,
        ds.len() + 4 * level <= 20,
    ensures
        ({
            let none = Count { groups: 0, places: 0, digit: 0 };
            let t = counted_on(none, grouped_by_four(ds, level, formal), formal);
            &&& t.groups + t.places + t.digit == val(ds) * ten_to((4 * level) as nat)
            &&& level > 0 ==> t.places == 0 && t.digit == 0
        }),
    decreases ds.len(),
{
    let none = Count { groups: 0, places: 0, digit: 0 };
    let p = ten_to((4 * level) as nat);
    if ds.len() > 0 {
        let cut = if ds.len() > 4 {
            ds.len() - 4
        } else {
            0
        };
        let high = ds.take(cut);
        let g = ds.skip(cut);
        assert(small(high));
        assert(small(g)) by {
            assert forall|i: int| 0 <= i < g.len() implies #[trigger] g[i] <= 9 by {
                assert(g[i] == ds[cut + i]);
            }
        }
        assert(ds =~= high + g);
        lemma_val_split(high, g);
        let first = grouped_by_four(high, level + 1, formal);
        let body = group_text(g, g.len() as int, formal);
        let t = counted_on(none, first, formal);
        if cut > 0 {
            lemma_groups_read(high, level + 1, formal);
            lemma_ten_to_add(4, (4 * level) as nat);
            assert(4 + (4 * level) as nat == (4 * (level + 1)) as nat);
        } else {
            assert(high =~= seq![]);
            assert(first =~= seq![]);
            assert(t == none);
        }
        let q = ten_to(4);
        assert(t.groups == val(high) * (q * p)) by {
            if cut == 0 {
                assert(0nat * (q * p) == 0) by (nonlinear_arith);
            }
        }
        lemma_group_read(t, g, g.len() as int, formal);
        let u = counted_on(t, body, formal);
        let name = group_name(level, formal);
        lemma_group_name(level, formal);
        let h = val(high);
        let w = val(g);
        let l = ten_to(g.len());
        assert(h * l == h * q) by {
            if cut == 0 {
                assert(0nat * l == 0nat * q) by (nonlinear_arith);
            } else {
                assert(g.len() == 4);
            }
        }
        assert((h * q + w) * p == h * (q * p) + w * p) by (nonlinear_arith);
        if body.len() == 0 {
            lemma_empty_group(g, g.len() as int, formal);
            assert(g.take(g.len() as int) =~= g);
            assert(grouped_by_four(ds, level, formal) =~= first);
            assert(0nat * p == 0) by (nonlinear_arith);
        } else {
            lemma_counted_add(none, first, body + name, formal);
            lemma_counted_add(t, body, name, formal);
            assert(grouped_by_four(ds, level, formal) =~= first + (body + name));
            if level > 0 {
                assert(name =~= seq![name[0]]);
                lemma_counted_one(u, name[0], formal);
            } else {
                assert(name =~= seq![]);
                assert(ten_to(0) == 1);
                assert(w * 1 == w) by (nonlinear_arith);
                assert(h * (q * 1) == h * q) by (nonlinear_arith);
            }
        }
    } else {
        assert(grouped_by_four(ds, level, formal) =~= seq![]);
        assert(0nat * p == 0) by (nonlinear_arith);
    }
}

proof fn lemma_values(n: Seq<char>)
    requires
        all_digits(n),
    ensures
        val(digit_values(n)) == number_value(n),
        small(digit_values(n)),
        digit_values(n).len() == n.len(),
    decreases n.len(),
{
    let p = |c: char| digit(c);
    let f = |c: char| (c as u32 - '0' as u32) as u8;
    if n.len() > 0 {
        let m = n.drop_last();
        assert forall|i: int| 0 <= i < m.len() implies digit(#[trigger] m[i]) by {
            assert(m[i] == n[i]);
        }
        lemma_values(m);
        assert(digit(n[n.len() - 1]));
        assert(n =~= m.push(n.last()));
        Seq::lemma_filter_push(m, n.last(), p);
        assert(digit_values(n) =~= digit_values(m).push(f(n.last())));
        assert(digit_values(n).drop_last() =~= digit_values(m));
    } else {
        assert(n.filter(p) =~= seq![]);
        assert(digit_values(n) =~= seq![]);
    }
}

proof fn lemma_val_significant(ds: Seq<u8>)
    requires
        small(ds),
    ensures
        val(significant(ds)) == val(ds),
        small(significant(ds)),
        significant(ds).len() > 0 ==> significant(ds)[0] != 0,
    decreases ds.len(),
{
    if ds.len() > 0 && ds[0] == 0 {
        let t = ds.skip(1);
        assert forall|i: int| 0 <= i < t.len() implies #[trigger] t[i] <= 9 by {
            assert(t[i] == ds[i + 1]);
        }
        lemma_val_significant(t);
        assert(ds =~= seq![0u8] + t);
        lemma_val_split(seq![0u8], t);
        assert(seq![0u8].drop_last() =~= seq![]);
        assert(val(seq![0u8].drop_last()) == 0);
        assert(val(seq![0u8]) == 0);
        assert(0nat * ten_to(t.len()) == 0) by (nonlinear_arith);
    }
}

proof fn lemma_val_at_least(ds: Seq<u8>)
    requires
        ds.len() > 0,
        ds[0] != 0,
    ensures
        val(ds) >= ten_to((ds.len() - 1) as nat),
    decreases ds.len(),
{
    if ds.len() > 1 {
        lemma_val_at_least(ds.drop_last());
        lemma_ten_to_next((ds.len() - 2) as nat);
    } else {
        assert(ds.drop_last() =~= seq![]);
        assert(val(ds.drop_last()) == 0);
    }
}

proof fn lemma_ten_to_grows(a: nat, b: nat)
    requires
        a <= b,
    ensures
        ten_to(a) <= ten_to(b),
    decreases b,
{
    if a < b {
        lemma_ten_to_grows(a, (b - 1) as nat);
    }
}

/// A number written with places is read as that number, in the plain and in the formal
/// style, as far as there are names for its groups.
pub proof fn law_places_are_read_as_the_number(n: Seq<char>)
    requires
        all_digits(n),
        number_value(n) < ten_to(20),
    ensures
        kanji_number(converted(n, '3'), false) == number_value(n),
        kanji_number(converted(n, '5'), true) == number_value(n),
        number_value(n) == 0 ==> converted(n, '3') == "〇"@ && converted(n, '5') == "零"@,
{
    let ds = significant(digit_values(n));
    lemma_values(n);
    lemma_val_significant(digit_values(n));
    if ds.len() > 0 {
        lemma_val_at_least(ds);
        if ds.len() > 20 {
            lemma_ten_to_grows(20, (ds.len() - 1) as nat);
        }
        lemma_groups_read(ds, 0, false);
        lemma_groups_read(ds, 0, true);
        assert(val(ds) * 1 == val(ds)) by (nonlinear_arith);
        lemma_ten_to_next((ds.len() - 1) as nat);
    } else {
        reveal_strlit("〇");
        reveal_strlit("零");
        let none = Count { groups: 0, places: 0, digit: 0 };
        assert("〇"@ =~= seq!['〇']);
        assert("零"@ =~= seq!['零']);
        lemma_counted_one(none, '〇', false);
        lemma_counted_one(none, '零', true);
    }
}

/// A number too large for the names of groups is written digit by digit in both styles.
pub proof fn law_larger_numbers_are_written_one_by_one(n: Seq<char>)
    requires
        all_digits(n),
        number_value(n) >= ten_to(20),
    ensures
        converted(n, '3') == converted(n, '2'),
        converted(n, '5') == converted(n, '2'),
{
    let ds = significant(digit_values(n));
    lemma_values(n);
    lemma_val_significant(digit_values(n));
    if ds.len() <= 20 {
        lemma_val_below(ds);
        lemma_ten_to_grows(ds.len(), 20);
    }
    assert(ds.len() > 20);
}

proof fn lemma_val_below(ds: Seq<u8>)
    requires
        small(ds),
    ensures
        val(ds) < ten_to(ds.len()),
    decreases ds.len(),
{
    if ds.len() > 0 {
        let m = ds.drop_last();
        assert forall|i: int| 0 <= i < m.len() implies #[trigger] m[i] <= 9 by {
            assert(m[i] == ds[i]);
        }
        lemma_val_below(m);
        assert(ds[ds.len() - 1] <= 9);
        lemma_ten_to_next(m.len());
    }
}

/// Whether no place that a one stands for has the one written before it.
pub open spec fn ones_left_out(s: Seq<char>) -> bool {
    forall|i: int|
        0 <= i < s.len() - 1 && #[trigger] s[i] == '一' ==> kanji_place(s[i + 1], false) is None
}

proof fn lemma_ones_join(a: Seq<char>, b: Seq<char>)
    requires
        ones_left_out(a),
        ones_left_out(b),
        a.len() == 0 || a.last() != '一' || b.len() == 0 || kanji_place(b[0], false) is None,
    ensures
        ones_left_out(a + b),
{
    let s = a + b;
    assert forall|i: int| 0 <= i < s.len() - 1 && #[trigger] s[i] == '一' implies kanji_place(
        s[i + 1],
        false,
    ) is None by {
        if i < a.len() - 1 {
            assert(a[i] == '一');
            assert(s[i + 1] == a[i + 1]);
        } else if i == a.len() - 1 {
            assert(a.last() == s[i]);
            assert(s[i + 1] == b[0]);
        } else {
            assert(b[i - a.len()] == '一');
            assert(s[i + 1] == b[i - a.len() + 1]);
        }
    }
}

proof fn lemma_group_ones(g: Seq<u8>, n: int)
    requires
        small(g),
        0 <= n <= g.len() <= 4,
    ensures
        ones_left_out(group_text(g, n, false)),
        n < g.len() && group_text(g, n, false).len() > 0 ==> group_text(g, n, false).last() != '一',
    decreases n,
{
    if n > 0 {
        lemma_group_ones(g, n - 1);
        let d = g[n - 1];
        let unit = g.len() - n;
        let had = group_text(g, n - 1, false);
        let p = placed(d, unit, false);
        lemma_unit_name(unit, false);
        if d != 0 {
            lemma_digit_name(d as int, false);
        }
        assert(ones_left_out(p));
        lemma_ones_join(had, p);
        if p.len() > 0 {
            assert((had + p).last() == p.last());
        } else {
            assert(had + p =~= had);
        }
    }
}

proof fn lemma_groups_ones(ds: Seq<u8>, level: int)
    requires
        small(ds),
        0 <= level,
        ds.len() + 4 * level <= 20,
    ensures
        ones_left_out(grouped_by_four(ds, level, false)),
        level > 0 && grouped_by_four(ds, level, false).len() > 0 ==> grouped_by_four(
            ds,
            level,
            false,
        ).last() != '一',
    decreases ds.len(),
{
    if ds.len() > 0 {
        let cut = if ds.len() > 4 {
            ds.len() - 4
        } else {
            0
        };
        let high = ds.take(cut);
        let g = ds.skip(cut);
        assert(small(g)) by {
            assert forall|i: int| 0 <= i < g.len() implies #[trigger] g[i] <= 9 by {
                assert(g[i] == ds[cut + i]);
            }
        }
        let first = grouped_by_four(high, level + 1, false);
        if cut > 0 {
            lemma_groups_ones(high, level + 1);
        } else {
            assert(high =~= seq![]);
            assert(first =~= seq![]);
        }
        let body = group_text(g, g.len() as int, false);
        lemma_group_ones(g, g.len() as int);
        let name = group_name(level, false);
        lemma_group_name(level, false);
        lemma_ones_join(body, name);
        lemma_ones_join(first, body + name);
        if level > 0 {
            assert((first + (body + name)).last() == name[0]);
        } else {
            assert(first + (body + name) =~= first + body);
        }
        if body.len() == 0 {
            assert(grouped_by_four(ds, level, false) =~= first);
        }
    }
}

/// In the plain style a one is not written before ten, a hundred and a thousand.
pub proof fn law_ones_are_left_out(n: Seq<char>)
    requires
        all_digits(n),
        number_value(n) < ten_to(20),
    ensures
        ones_left_out(converted(n, '3')),
{
    let ds = significant(digit_values(n));
    lemma_values(n);
    lemma_val_significant(digit_values(n));
    if ds.len() > 0 {
        lemma_val_at_least(ds);
        if ds.len() > 20 {
            lemma_ten_to_grows(20, (ds.len() - 1) as nat);
        }
        lemma_groups_ones(ds, 0);
    } else {
        reveal_strlit("〇");
    }
}

/// Grouped digits are the digits with a comma before every third one counted from the right,
/// and nowhere else: of the characters counted from the right, every fourth is a comma, and
/// the first character is none.
pub proof fn law_commas_stand_by_threes(n: Seq<char>)
    requires
        all_digits(n),
    ensures
        ({
            let s = converted(n, '8');
            &&& s.filter(|c: char| c != ',') == n
            &&& forall|k: int|
                0 <= k < s.len() ==> ((#[trigger] s[s.len() - 1 - k] == ',') <==> k % 4 == 3)
            &&& s.len() > 0 ==> s[0] != ','
        }),
{
    let p = |c: char| digit(c);
    lemma_digits_stay(n);
    let ds = n.filter(p);
    assert(ds == n);
    crate::num::law_grouping_adds_only_commas(n, n.len() as int);
    assert(n.take(n.len() as int) =~= n);
    lemma_comma_places(n, n.len() as int);
}

proof fn lemma_digits_stay(n: Seq<char>)
    requires
        all_digits(n),
    ensures
        n.filter(|c: char| digit(c)) == n,
    decreases n.len(),
{
    let p = |c: char| digit(c);
    if n.len() > 0 {
        let m = n.drop_last();
        assert forall|i: int| 0 <= i < m.len() implies digit(#[trigger] m[i]) by {
            assert(m[i] == n[i]);
        }
        lemma_digits_stay(m);
        assert(digit(n[n.len() - 1]));
        assert(n =~= m.push(n.last()));
        Seq::lemma_filter_push(m, n.last(), p);
    } else {
        assert(n.filter(p) =~= n);
    }
}

/// How many characters stand behind the first `n` digits once they are grouped.
spec fn room(len: int, n: int) -> int {
    let after = len - n;
    after + after / 3
}

proof fn lemma_comma_places(ds: Seq<char>, n: int)
    requires
        all_digits(ds),
        0 <= n <= ds.len(),
    ensures
        ({
            let s = comma_text(ds, n);
            let r = room(ds.len() as int, n);
            &&& forall|j: int|
                0 <= j < s.len() ==> ((#[trigger] s[j] == ',') <==> (s.len() - 1 - j + r) % 4 == 3)
            &&& s.len() > 0 ==> s[0] != ','
        }),
    decreases n,
{
    if n > 0 {
        lemma_comma_places(ds, n - 1);
        let s = comma_text(ds, n);
        let t = comma_text(ds, n - 1);
        let r = room(ds.len() as int, n);
        let q = room(ds.len() as int, n - 1);
        let a = ds.len() - n;
        assert(digit(ds[n - 1]));
        assert(q == (a + 1) + (a + 1) / 3);
        assert forall|j: int| 0 <= j < s.len() implies ((#[trigger] s[j] == ',') <==> (s.len() - 1
            - j + r) % 4 == 3) by {
            if j < t.len() {
                assert(s[j] == t[j]);
            }
        }
        if n > 1 {
            lemma_some_comma_text(ds, n - 1);
            assert(s[0] == t[0]);
        }
    }
}

proof fn lemma_some_comma_text(ds: Seq<char>, n: int)
    requires
        n > 0,
    ensures
        comma_text(ds, n).len() > 0,
{
}

/// A reading whose numbers are marked for the style that leaves them as they are.
pub open spec fn marked_plainly(key: Seq<char>) -> Seq<char>
    decreases key.len(),
{
    if key.len() == 0 {
        seq![]
    } else if key[0] == '#' {
        seq!['#', '0'] + marked_plainly(key.skip(1))
    } else {
        seq![key[0]] + marked_plainly(key.skip(1))
    }
}

/// The numbers that are taken out of a reading go back into the places they came from: the
/// reading with its numbers marked gives the reading again. A reading with a mark of its own
/// is left out.
pub proof fn law_marks_take_the_numbers_in_order(s: Seq<char>)
    requires
        !s.contains('#'),
    ensures
        expanded(marked_plainly(abstracted(s)), numbers(s)) == s,
    decreases s.len(),
{
    lemma_digit_run(s);
    if s.len() == 0 {
        assert(abstracted(s) =~= seq![]);
        assert(marked_plainly(abstracted(s)) =~= seq![]);
    } else {
        let n: int = if digit(s[0]) {
            digit_run(s) as int
        } else {
            1
        };
        let rest = s.skip(n);
        assert(!rest.contains('#')) by {
            if rest.contains('#') {
                let i = choose|i: int| 0 <= i < rest.len() && rest[i] == '#';
                assert(s[n + i] == '#');
            }
        }
        law_marks_take_the_numbers_in_order(rest);
        let k = abstracted(s);
        let later = marked_plainly(abstracted(rest));
        assert(k.skip(1) =~= abstracted(rest));
        let m = marked_plainly(k);
        if digit(s[0]) {
            assert(m =~= seq!['#', '0'] + later);
            assert(m.skip(2) =~= later);
            assert(numbers(s).skip(1) =~= numbers(rest));
            assert(numbers(s)[0] == s.take(n));
            assert(expanded(m, numbers(s)) =~= s.take(n) + rest);
        } else {
            assert(s.contains(s[0]));
            assert(m =~= seq![s[0]] + later);
            assert(m.skip(1) =~= later);
            assert(numbers(s) == numbers(rest));
            assert(expanded(m, numbers(s)) =~= seq![s[0]] + rest);
        }
        assert(s =~= s.take(n) + rest);
        assert(s.take(1) =~= seq![s[0]]);
    }
}

} // verus!
