//! The variables of snippets: dates and times.
use vstd::prelude::*;
use vstd::string::*;
use crate::snippet::{
    lemma_decimal_value, name_char, name_run, number_value, value_of, variable_step,
    variables_opened, Now, DAY_NAMES, DAY_NAMES_SHORT, MONTH_NAMES, MONTH_NAMES_SHORT,
};
use crate::text::{decimal, digit, zero_padded};

verus! {

/// Whether a text writes a number in so many digits at least, with zeros before it.
pub open spec fn writes(t: Seq<char>, n: nat, width: nat) -> bool {
    &&& t.len() >= width
    &&& forall|i: int| 0 <= i < t.len() ==> digit(#[trigger] t[i])
    &&& number_value(t) == n
    &&& t.len() > width ==> t[0] != '0'
}

proof fn lemma_zeros(d: Seq<char>, k: nat)
    ensures
        number_value(Seq::new(k, |i: int| '0') + d) == number_value(d),
    decreases d.len(),
{
    let z = Seq::new(k, |i: int| '0');
    let t = z + d;
    if d.len() > 0 {
        lemma_zeros(d.drop_last(), k);
        assert(t.drop_last() =~= z + d.drop_last());
        assert(t.last() == d.last());
    } else {
        assert(t =~= z);
        lemma_only_zeros(k);
    }
}

proof fn lemma_only_zeros(k: nat)
    ensures
        number_value(Seq::new(k, |i: int| '0')) == 0,
    decreases k,
{
    let z = Seq::new(k, |i: int| '0');
    if k > 0 {
        let y = Seq::new((k - 1) as nat, |i: int| '0');
        lemma_only_zeros((k - 1) as nat);
        assert(z.drop_last() =~= y);
        assert(z.last() == '0');
    }
}

proof fn lemma_leading(n: nat)
    ensures
        n > 0 ==> decimal(n)[0] != '0',
        n == 0 ==> decimal(n).len() == 1,
    decreases n,
{
    if n >= 10 {
        lemma_leading(n / 10);
        lemma_decimal_value(n / 10);
        assert(decimal(n)[0] == decimal(n / 10)[0]);
    } else if n > 0 {
        assert(decimal(n)[0] == crate::text::shifted('0', n as int));
    }
}

proof fn lemma_padded(n: nat, width: nat)
    requires
        width > 0,
    ensures
        writes(zero_padded(decimal(n), width), n, width),
{
    let d = decimal(n);
    let t = zero_padded(d, width);
    lemma_decimal_value(n);
    lemma_leading(n);
    if d.len() < width {
        let k = (width - d.len()) as nat;
        let z = Seq::new(k, |i: int| '0');
        assert(t =~= z + d);
        lemma_zeros(d, k);
        assert forall|i: int| 0 <= i < t.len() implies digit(#[trigger] t[i]) by {
            if i >= k {
                assert(t[i] == d[i - k]);
            }
        }
    } else {
        assert(t =~= d);
    }
}

/// The names of the months.
pub open spec fn month_name(m: u32) -> Seq<char> {
    match m {
        1 => "January"@,
        2 => "February"@,
        3 => "March"@,
        4 => "April"@,
        5 => "May"@,
        6 => "June"@,
        7 => "July"@,
        8 => "August"@,
        9 => "September"@,
        10 => "October"@,
        11 => "November"@,
        _ => "December"@,
    }
}

/// The names of the days, from Sunday on.
pub open spec fn day_name(d: u32) -> Seq<char> {
    match d {
        0 => "Sunday"@,
        1 => "Monday"@,
        2 => "Tuesday"@,
        3 => "Wednesday"@,
        4 => "Thursday"@,
        5 => "Friday"@,
        _ => "Saturday"@,
    }
}

proof fn lemma_names()
    ensures
        "CURRENT_YEAR"@ != "CURRENT_YEAR_SHORT"@,
        "CURRENT_YEAR"@ != "CURRENT_MONTH"@,
        "CURRENT_YEAR"@ != "CURRENT_MONTH_NAME"@,
        "CURRENT_YEAR"@ != "CURRENT_MONTH_NAME_SHORT"@,
        "CURRENT_YEAR"@ != "CURRENT_DATE"@,
        "CURRENT_YEAR"@ != "CURRENT_DAY_NAME"@,
        "CURRENT_YEAR"@ != "CURRENT_DAY_NAME_SHORT"@,
        "CURRENT_YEAR"@ != "CURRENT_HOUR"@,
        "CURRENT_YEAR"@ != "CURRENT_MINUTE"@,
        "CURRENT_YEAR"@ != "CURRENT_SECOND"@,
        "CURRENT_YEAR"@ != "CURRENT_SECONDS_UNIX"@,
        "CURRENT_YEAR_SHORT"@ != "CURRENT_MONTH"@,
        "CURRENT_YEAR_SHORT"@ != "CURRENT_MONTH_NAME"@,
        "CURRENT_YEAR_SHORT"@ != "CURRENT_MONTH_NAME_SHORT"@,
        "CURRENT_YEAR_SHORT"@ != "CURRENT_DATE"@,
        "CURRENT_YEAR_SHORT"@ != "CURRENT_DAY_NAME"@,
        "CURRENT_YEAR_SHORT"@ != "CURRENT_DAY_NAME_SHORT"@,
        "CURRENT_YEAR_SHORT"@ != "CURRENT_HOUR"@,
        "CURRENT_YEAR_SHORT"@ != "CURRENT_MINUTE"@,
        "CURRENT_YEAR_SHORT"@ != "CURRENT_SECOND"@,
        "CURRENT_YEAR_SHORT"@ != "CURRENT_SECONDS_UNIX"@,
        "CURRENT_MONTH"@ != "CURRENT_MONTH_NAME"@,
        "CURRENT_MONTH"@ != "CURRENT_MONTH_NAME_SHORT"@,
        "CURRENT_MONTH"@ != "CURRENT_DATE"@,
        "CURRENT_MONTH"@ != "CURRENT_DAY_NAME"@,
        "CURRENT_MONTH"@ != "CURRENT_DAY_NAME_SHORT"@,
        "CURRENT_MONTH"@ != "CURRENT_HOUR"@,
        "CURRENT_MONTH"@ != "CURRENT_MINUTE"@,
        "CURRENT_MONTH"@ != "CURRENT_SECOND"@,
        "CURRENT_MONTH"@ != "CURRENT_SECONDS_UNIX"@,
        "CURRENT_MONTH_NAME"@ != "CURRENT_MONTH_NAME_SHORT"@,
        "CURRENT_MONTH_NAME"@ != "CURRENT_DATE"@,
        "CURRENT_MONTH_NAME"@ != "CURRENT_DAY_NAME"@,
        "CURRENT_MONTH_NAME"@ != "CURRENT_DAY_NAME_SHORT"@,
        "CURRENT_MONTH_NAME"@ != "CURRENT_HOUR"@,
        "CURRENT_MONTH_NAME"@ != "CURRENT_MINUTE"@,
        "CURRENT_MONTH_NAME"@ != "CURRENT_SECOND"@,
        "CURRENT_MONTH_NAME"@ != "CURRENT_SECONDS_UNIX"@,
        "CURRENT_MONTH_NAME_SHORT"@ != "CURRENT_DATE"@,
        "CURRENT_MONTH_NAME_SHORT"@ != "CURRENT_DAY_NAME"@,
        "CURRENT_MONTH_NAME_SHORT"@ != "CURRENT_DAY_NAME_SHORT"@,
        "CURRENT_MONTH_NAME_SHORT"@ != "CURRENT_HOUR"@,
        "CURRENT_MONTH_NAME_SHORT"@ != "CURRENT_MINUTE"@,
        "CURRENT_MONTH_NAME_SHORT"@ != "CURRENT_SECOND"@,
        "CURRENT_MONTH_NAME_SHORT"@ != "CURRENT_SECONDS_UNIX"@,
        "CURRENT_DATE"@ != "CURRENT_DAY_NAME"@,
        "CURRENT_DATE"@ != "CURRENT_DAY_NAME_SHORT"@,
        "CURRENT_DATE"@ != "CURRENT_HOUR"@,
        "CURRENT_DATE"@ != "CURRENT_MINUTE"@,
        "CURRENT_DATE"@ != "CURRENT_SECOND"@,
        "CURRENT_DATE"@ != "CURRENT_SECONDS_UNIX"@,
        "CURRENT_DAY_NAME"@ != "CURRENT_DAY_NAME_SHORT"@,
        "CURRENT_DAY_NAME"@ != "CURRENT_HOUR"@,
        "CURRENT_DAY_NAME"@ != "CURRENT_MINUTE"@,
        "CURRENT_DAY_NAME"@ != "CURRENT_SECOND"@,
        "CURRENT_DAY_NAME"@ != "CURRENT_SECONDS_UNIX"@,
        "CURRENT_DAY_NAME_SHORT"@ != "CURRENT_HOUR"@,
        "CURRENT_DAY_NAME_SHORT"@ != "CURRENT_MINUTE"@,
        "CURRENT_DAY_NAME_SHORT"@ != "CURRENT_SECOND"@,
        "CURRENT_DAY_NAME_SHORT"@ != "CURRENT_SECONDS_UNIX"@,
        "CURRENT_HOUR"@ != "CURRENT_MINUTE"@,
        "CURRENT_HOUR"@ != "CURRENT_SECOND"@,
        "CURRENT_HOUR"@ != "CURRENT_SECONDS_UNIX"@,
        "CURRENT_MINUTE"@ != "CURRENT_SECOND"@,
        "CURRENT_MINUTE"@ != "CURRENT_SECONDS_UNIX"@,
        "CURRENT_SECOND"@ != "CURRENT_SECONDS_UNIX"@,
{
    reveal_strlit("CURRENT_YEAR");
    reveal_strlit("CURRENT_YEAR_SHORT");
    reveal_strlit("CURRENT_MONTH");
    reveal_strlit("CURRENT_MONTH_NAME");
    reveal_strlit("CURRENT_MONTH_NAME_SHORT");
    reveal_strlit("CURRENT_DATE");
    reveal_strlit("CURRENT_DAY_NAME");
    reveal_strlit("CURRENT_DAY_NAME_SHORT");
    reveal_strlit("CURRENT_HOUR");
    reveal_strlit("CURRENT_MINUTE");
    reveal_strlit("CURRENT_SECOND");
    reveal_strlit("CURRENT_SECONDS_UNIX");
    assert("CURRENT_YEAR"@.len() == 12 && "CURRENT_YEAR"@[8] == 'Y');
    assert("CURRENT_YEAR_SHORT"@.len() == 18 && "CURRENT_YEAR_SHORT"@[8] == 'Y');
    assert("CURRENT_MONTH"@.len() == 13 && "CURRENT_MONTH"@[8] == 'M');
    assert("CURRENT_MONTH_NAME"@.len() == 18 && "CURRENT_MONTH_NAME"@[8] == 'M');
    assert("CURRENT_MONTH_NAME_SHORT"@.len() == 24 && "CURRENT_MONTH_NAME_SHORT"@[8] == 'M');
    assert("CURRENT_DATE"@.len() == 12 && "CURRENT_DATE"@[8] == 'D');
    assert("CURRENT_DAY_NAME"@.len() == 16 && "CURRENT_DAY_NAME"@[8] == 'D');
    assert("CURRENT_DAY_NAME_SHORT"@.len() == 22 && "CURRENT_DAY_NAME_SHORT"@[8] == 'D');
    assert("CURRENT_HOUR"@.len() == 12 && "CURRENT_HOUR"@[8] == 'H');
    assert("CURRENT_MINUTE"@.len() == 14 && "CURRENT_MINUTE"@[8] == 'M');
    assert("CURRENT_SECOND"@.len() == 14 && "CURRENT_SECOND"@[8] == 'S');
    assert("CURRENT_SECONDS_UNIX"@.len() == 20 && "CURRENT_SECONDS_UNIX"@[8] == 'S');
}

/// The numbers of a date and a time are written in two digits at least, the year in four.
pub proof fn law_dates_are_written_in_digits(now: Now)
    ensures
        value_of(now, "CURRENT_MONTH"@) is Some && writes(
            value_of(now, "CURRENT_MONTH"@)->0,
            now.month as nat,
            2,
        ),
        value_of(now, "CURRENT_DATE"@) is Some && writes(
            value_of(now, "CURRENT_DATE"@)->0,
            now.day as nat,
            2,
        ),
        value_of(now, "CURRENT_HOUR"@) is Some && writes(
            value_of(now, "CURRENT_HOUR"@)->0,
            now.hour as nat,
            2,
        ),
        value_of(now, "CURRENT_MINUTE"@) is Some && writes(
            value_of(now, "CURRENT_MINUTE"@)->0,
            now.minute as nat,
            2,
        ),
        value_of(now, "CURRENT_SECOND"@) is Some && writes(
            value_of(now, "CURRENT_SECOND"@)->0,
            now.second as nat,
            2,
        ),
        now.year >= 0 ==> value_of(now, "CURRENT_YEAR"@) is Some && writes(
            value_of(now, "CURRENT_YEAR"@)->0,
            now.year as nat,
            4,
        ),
        now.year >= 0 ==> value_of(now, "CURRENT_YEAR_SHORT"@) is Some && writes(
            value_of(now, "CURRENT_YEAR_SHORT"@)->0,
            (now.year as nat) % 100,
            2,
        ),
        now.unix >= 0 ==> value_of(now, "CURRENT_SECONDS_UNIX"@) is Some && writes(
            value_of(now, "CURRENT_SECONDS_UNIX"@)->0,
            now.unix as nat,
            1,
        ),
{
    lemma_names();
    lemma_padded(now.month as nat, 2);
    lemma_padded(now.day as nat, 2);
    lemma_padded(now.hour as nat, 2);
    lemma_padded(now.minute as nat, 2);
    lemma_padded(now.second as nat, 2);
    if now.year >= 0 {
        lemma_padded(now.year as nat, 4);
        lemma_padded((now.year as int % 100) as nat, 2);
    }
    if now.unix >= 0 {
        lemma_decimal_value(now.unix as nat);
        lemma_leading(now.unix as nat);
    }
}

/// The months and the days are written by their names; the short names are the first three
/// letters of the long ones.
pub proof fn law_months_and_days_are_named(now: Now)
    ensures
        1 <= now.month <= 12 ==> value_of(now, "CURRENT_MONTH_NAME"@) == Some(
            month_name(now.month),
        ),
        1 <= now.month <= 12 ==> value_of(now, "CURRENT_MONTH_NAME_SHORT"@) == Some(
            month_name(now.month).take(3),
        ),
        now.weekday < 7 ==> value_of(now, "CURRENT_DAY_NAME"@) == Some(
            day_name(now.weekday),
        ),
        now.weekday < 7 ==> value_of(now, "CURRENT_DAY_NAME_SHORT"@) == Some(
            day_name(now.weekday).take(3),
        ),
{
    lemma_names();
    if 1 <= now.month <= 12 {
        lemma_month(now.month);
    }
    if now.weekday < 7 {
        lemma_day(now.weekday);
    }
}

proof fn lemma_month(m: u32)
    requires
        1 <= m <= 12,
    ensures
        MONTH_NAMES@[m - 1]@ == month_name(m),
        MONTH_NAMES_SHORT@[m - 1]@ == month_name(m).take(3),
{
    if m == 1 {
        reveal_strlit("January");
        reveal_strlit("Jan");
        assert("Jan"@ =~= "January"@.take(3));
    } else if m == 2 {
        reveal_strlit("February");
        reveal_strlit("Feb");
        assert("Feb"@ =~= "February"@.take(3));
    } else if m == 3 {
        reveal_strlit("March");
        reveal_strlit("Mar");
        assert("Mar"@ =~= "March"@.take(3));
    } else if m == 4 {
        reveal_strlit("April");
        reveal_strlit("Apr");
        assert("Apr"@ =~= "April"@.take(3));
    } else if m == 5 {
        reveal_strlit("May");
        reveal_strlit("May");
        assert("May"@ =~= "May"@.take(3));
    } else if m == 6 {
        reveal_strlit("June");
        reveal_strlit("Jun");
        assert("Jun"@ =~= "June"@.take(3));
    } else if m == 7 {
        reveal_strlit("July");
        reveal_strlit("Jul");
        assert("Jul"@ =~= "July"@.take(3));
    } else if m == 8 {
        reveal_strlit("August");
        reveal_strlit("Aug");
        assert("Aug"@ =~= "August"@.take(3));
    } else if m == 9 {
        reveal_strlit("September");
        reveal_strlit("Sep");
        assert("Sep"@ =~= "September"@.take(3));
    } else if m == 10 {
        reveal_strlit("October");
        reveal_strlit("Oct");
        assert("Oct"@ =~= "October"@.take(3));
    } else if m == 11 {
        reveal_strlit("November");
        reveal_strlit("Nov");
        assert("Nov"@ =~= "November"@.take(3));
    } else if m == 12 {
        reveal_strlit("December");
        reveal_strlit("Dec");
        assert("Dec"@ =~= "December"@.take(3));
    }
}

proof fn lemma_day(d: u32)
    requires
        0 <= d < 7,
    ensures
        DAY_NAMES@[d as int]@ == day_name(d),
        DAY_NAMES_SHORT@[d as int]@ == day_name(d).take(3),
{
    if d == 0 {
        reveal_strlit("Sunday");
        reveal_strlit("Sun");
        assert("Sun"@ =~= "Sunday"@.take(3));
    } else if d == 1 {
        reveal_strlit("Monday");
        reveal_strlit("Mon");
        assert("Mon"@ =~= "Monday"@.take(3));
    } else if d == 2 {
        reveal_strlit("Tuesday");
        reveal_strlit("Tue");
        assert("Tue"@ =~= "Tuesday"@.take(3));
    } else if d == 3 {
        reveal_strlit("Wednesday");
        reveal_strlit("Wed");
        assert("Wed"@ =~= "Wednesday"@.take(3));
    } else if d == 4 {
        reveal_strlit("Thursday");
        reveal_strlit("Thu");
        assert("Thu"@ =~= "Thursday"@.take(3));
    } else if d == 5 {
        reveal_strlit("Friday");
        reveal_strlit("Fri");
        assert("Fri"@ =~= "Friday"@.take(3));
    } else if d == 6 {
        reveal_strlit("Saturday");
        reveal_strlit("Sat");
        assert("Sat"@ =~= "Saturday"@.take(3));
    }
}

/// A text in which no variable can begin.
pub open spec fn no_variable(s: Seq<char>) -> bool {
    !s.contains('$') && !s.contains('\\')
}

proof fn lemma_kept(a: Seq<char>, s: Seq<char>, now: Now)
    requires
        no_variable(a),
    ensures
        variables_opened(a + s, now) == a + variables_opened(s, now),
    decreases a.len(),
{
    if a.len() == 0 {
        assert(a + s =~= s);
        assert(a + variables_opened(s, now) =~= variables_opened(s, now));
    } else {
        let t = a + s;
        assert(t[0] == a[0]);
        assert(a.contains(a[0]));
        let b = a.skip(1);
        assert(no_variable(b)) by {
            if b.contains('$') {
                let i = choose|i: int| 0 <= i < b.len() && b[i] == '$';
                assert(a[i + 1] == '$');
            }
            if b.contains('\\') {
                let i = choose|i: int| 0 <= i < b.len() && b[i] == '\\';
                assert(a[i + 1] == '\\');
            }
        }
        lemma_kept(b, s, now);
        assert(t.skip(1) =~= b + s);
        assert(variables_opened(t, now) =~= a + variables_opened(s, now));
    }
}

proof fn lemma_name_ends(name: Seq<char>, s: Seq<char>)
    requires
        forall|i: int| 0 <= i < name.len() ==> name_char(#[trigger] name[i]),
        s.len() == 0 || !name_char(s[0]),
    ensures
        name_run(name + s) == name.len(),
    decreases name.len(),
{
    if name.len() == 0 {
        assert(name + s =~= s);
    } else {
        let t = name.skip(1);
        assert(name_char(name[0]));
        assert forall|i: int| 0 <= i < t.len() implies name_char(#[trigger] t[i]) by {
            assert(t[i] == name[i + 1]);
        }
        lemma_name_ends(t, s);
        assert((name + s).skip(1) =~= t + s);
        assert((name + s)[0] == name[0]);
    }
}

/// A variable that is known gives its value, in braces or without them, between what stands
/// before it and what follows; one that is not known stays as it is written. A dollar sign
/// behind a backslash is a dollar sign.
pub proof fn law_variables_are_opened(a: Seq<char>, name: Seq<char>, s: Seq<char>, now: Now)
    requires
        no_variable(a),
        name.len() > 0,
        forall|i: int| 0 <= i < name.len() ==> name_char(#[trigger] name[i]),
    ensures
        value_of(now, name) is Some ==> variables_opened(a + "${"@ + name + "}"@ + s, now) == a
            + value_of(now, name)->0 + variables_opened(s, now),
        value_of(now, name) is Some && (s.len() == 0 || !name_char(s[0])) ==> variables_opened(
            a + "$"@ + name + s,
            now,
        ) == a + value_of(now, name)->0 + variables_opened(s, now),
        value_of(now, name) is None && (s.len() == 0 || !name_char(s[0])) ==> variables_opened(
            a + "$"@ + name + s,
            now,
        ) == a + "$"@ + name + variables_opened(s, now),
        variables_opened(a + "\\$"@ + s, now) == a + "$"@ + variables_opened(s, now),
{
    reveal_strlit("${");
    reveal_strlit("}");
    reveal_strlit("$");
    reveal_strlit("\\$");
    let n = name.len() as int;
    let x = "${"@ + name + "}"@ + s;
    assert(a + "${"@ + name + "}"@ + s =~= a + x);
    lemma_kept(a, x, now);
    let tail = x.skip(2 + n);
    assert(tail[0] == '}');
    assert(x.skip(2) =~= name + tail);
    lemma_name_ends(name, tail);
    assert(x.subrange(2, 2 + n) =~= name);
    assert(x.skip(3 + n) =~= s);
    assert(x[2 + n] == '}');
    if value_of(now, name) is Some {
        assert(variable_step(x, now) == (value_of(now, name)->0, 3 + n));
        assert(a + variables_opened(x, now) =~= a + value_of(now, name)->0 + variables_opened(
            s,
            now,
        ));
    }
    let y = "$"@ + name + s;
    assert(a + "$"@ + name + s =~= a + y);
    lemma_kept(a, y, now);
    assert(y.skip(1) =~= name + s);
    assert(y[1] == name[0]);
    assert(name_char(name[0]));
    if s.len() == 0 || !name_char(s[0]) {
        lemma_name_ends(name, s);
        assert(y.subrange(1, 1 + n) =~= name);
        assert(y.skip(1 + n) =~= s);
        if value_of(now, name) is Some {
            assert(variable_step(y, now) == (value_of(now, name)->0, 1 + n));
            assert(a + variables_opened(y, now) =~= a + value_of(now, name)->0 + variables_opened(
                s,
                now,
            ));
        } else {
            assert(variable_step(y, now) == (seq!['$'], 1int));
            assert(no_variable(name)) by {
                if name.contains('$') {
                    let i = choose|i: int| 0 <= i < name.len() && name[i] == '$';
                    assert(name_char(name[i]));
                }
                if name.contains('\\') {
                    let i = choose|i: int| 0 <= i < name.len() && name[i] == '\\';
                    assert(name_char(name[i]));
                }
            }
            lemma_kept(name, s, now);
            assert(a + variables_opened(y, now) =~= a + "$"@ + name + variables_opened(s, now));
        }
    }
    let z = "\\$"@ + s;
    assert(a + "\\$"@ + s =~= a + z);
    lemma_kept(a, z, now);
    assert(z.skip(2) =~= s);
    assert(variable_step(z, now) == (seq!['$'], 2int));
    assert(a + variables_opened(z, now) =~= a + "$"@ + variables_opened(s, now));
}

} // verus!
