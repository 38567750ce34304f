//! Characters, lines and numbers in texts.
use vstd::prelude::*;
use crate::text::{
    byte_len, capital, decimal, digit, lemma_is_first_at, letter, lines, lower, trim, trim_end,
    trim_start, upper, whitespace, without_cr, zero_padded,
};

verus! {

/// Every capital letter has its small one and the other way round; nothing else has either.
pub proof fn law_letters_come_in_pairs(c: char)
    ensures
        upper(c) ==> letter(c) && letter(lower(c)) && !upper(lower(c)) && capital(lower(c)) == c,
        letter(c) && !upper(c) ==> upper(capital(c)) && lower(capital(c)) == c && lower(c) == c,
        !letter(c) ==> lower(c) == c && capital(c) == c,
        digit(c) ==> !letter(c),
{
}

/// A character takes as many bytes as its UTF-8 has.
pub proof fn law_characters_take_their_bytes(c: char)
    ensures
        byte_len(c) == vstd::utf8::encode_utf8(seq![c]).len(),
{
    let t = seq![c];
    let none: Seq<char> = seq![];
    assert(t.drop_first() =~= none);
    assert(vstd::utf8::encode_utf8(none) =~= seq![]);
    assert(vstd::utf8::encode_utf8(t) =~= vstd::utf8::encode_scalar(c as u32));
}

proof fn lemma_trim_start(a: Seq<char>, s: Seq<char>)
    requires
        forall|i: int| 0 <= i < a.len() ==> whitespace(#[trigger] a[i]),
        s.len() == 0 || !whitespace(s[0]),
    ensures
        trim_start(a + s) == s,
    decreases a.len(),
{
    let t = a + s;
    if a.len() == 0 {
        assert(t =~= s);
    } else {
        let b = a.skip(1);
        assert(whitespace(a[0]));
        assert(t[0] == a[0]);
        assert(t.skip(1) =~= b + s);
        assert forall|i: int| 0 <= i < b.len() implies whitespace(#[trigger] b[i]) by {
            assert(whitespace(a[i + 1]));
        }
        lemma_trim_start(b, s);
    }
}

proof fn lemma_trim_end(s: Seq<char>, b: Seq<char>)
    requires
        forall|i: int| 0 <= i < b.len() ==> whitespace(#[trigger] b[i]),
        s.len() == 0 || !whitespace(s.last()),
    ensures
        trim_end(s + b) == s,
    decreases b.len(),
{
    let t = s + b;
    if b.len() == 0 {
        assert(t =~= s);
    } else {
        let a = b.drop_last();
        assert(whitespace(b[b.len() - 1]));
        assert(t.last() == b.last());
        assert(t.drop_last() =~= s + a);
        assert forall|i: int| 0 <= i < a.len() implies whitespace(#[trigger] a[i]) by {
            assert(whitespace(b[i]));
        }
        lemma_trim_end(s, a);
    }
}

/// Trimming takes the white space away on both sides, and nothing else.
pub proof fn law_white_space_is_trimmed(a: Seq<char>, s: Seq<char>, b: Seq<char>)
    requires
        forall|i: int| 0 <= i < a.len() ==> whitespace(#[trigger] a[i]),
        forall|i: int| 0 <= i < b.len() ==> whitespace(#[trigger] b[i]),
        s.len() > 0,
        !whitespace(s[0]),
        !whitespace(s.last()),
    ensures
        trim(a + s + b) == s,
{
    assert(a + s + b =~= a + (s + b));
    assert((s + b)[0] == s[0]);
    lemma_trim_start(a, s + b);
    lemma_trim_end(s, b);
}

/// A line ends with its line feed, and a carriage return before that is no part of it. What
/// follows are the other lines.
pub proof fn law_lines_end_with_line_feeds(line: Seq<char>, rest: Seq<char>)
    requires
        !line.contains('\n'),
    ensures
        lines(line + seq!['\r', '\n'] + rest) == seq![line] + lines(rest),
        line.len() == 0 || line.last() != '\r' ==> lines(line + seq!['\n'] + rest) == seq![line]
            + lines(rest),
        line.len() > 0 ==> lines(line) == seq![line],
{
    let n = line.len() as int;
    let s = line + seq!['\n'] + rest;
    assert forall|j: int| 0 <= j < n implies s[j] != '\n' by {
        assert(s[j] == line[j]);
        assert(line.contains(line[j]));
    }
    assert(s[n] == '\n');
    lemma_is_first_at(s, '\n', n);
    assert(s.take(n) =~= line);
    assert(s.skip(n + 1) =~= rest);
    let t = line + seq!['\r', '\n'] + rest;
    assert forall|j: int| 0 <= j < n + 1 implies t[j] != '\n' by {
        if j < n {
            assert(t[j] == line[j]);
            assert(line.contains(line[j]));
        }
    }
    assert(t[n + 1] == '\n');
    lemma_is_first_at(t, '\n', n + 1);
    assert(t.take(n + 1) =~= line.push('\r'));
    assert(without_cr(line.push('\r')) =~= line);
    assert(t.skip(n + 2) =~= rest);
    crate::text::lemma_first_of_none(line, '\n');
}

/// The number that a text of digits is read as.
pub open spec fn read_as(s: Seq<char>) -> int
    decreases s.len(),
{
    if s.len() == 0 {
        0
    } else {
        read_as(s.drop_last()) * 10 + (s.last() as int - '0' as int)
    }
}

/// A number is written in digits, without zeros in front, so that it is read again.
pub proof fn law_numbers_are_read_again(n: nat)
    ensures
        read_as(decimal(n)) == n,
        decimal(n).len() > 0,
        forall|i: int| 0 <= i < decimal(n).len() ==> digit(#[trigger] decimal(n)[i]),
        n > 0 ==> decimal(n)[0] != '0',
    decreases n,
{
    let d = decimal(n);
    if n < 10 {
        assert(d.drop_last() =~= seq![]);
        assert(read_as(d.drop_last()) == 0);
        assert(d.last() as int == '0' as int + n);
    } else {
        law_numbers_are_read_again(n / 10);
        assert(d.drop_last() =~= decimal(n / 10));
        assert(d.last() as int == '0' as int + (n % 10));
        assert forall|i: int| 0 <= i < d.len() implies digit(#[trigger] d[i]) by {
            if i < d.len() - 1 {
                assert(d[i] == decimal(n / 10)[i]);
            }
        }
        assert(d[0] == decimal(n / 10)[0]);
    }
}

/// Zeros in front fill a number up to a width, and do not change it.
pub proof fn law_zeros_fill_the_width(s: Seq<char>, width: nat)
    ensures
        s.len() >= width ==> zero_padded(s, width) == s,
        s.len() < width ==> zero_padded(s, width).len() == width,
        read_as(zero_padded(s, width)) == read_as(s),
    decreases s.len(),
{
    let z = zero_padded(s, width);
    if s.len() < width {
        let k = (width - s.len()) as nat;
        let zeros = z.take(k as int);
        assert(z =~= zeros + s);
        assert forall|i: int| 0 <= i < zeros.len() implies zeros[i] == '0' by {}
        lemma_zeros(zeros, s);
    }
}

proof fn lemma_zeros(zeros: Seq<char>, s: Seq<char>)
    requires
        forall|i: int| 0 <= i < zeros.len() ==> #[trigger] zeros[i] == '0',
    ensures
        read_as(zeros + s) == read_as(s),
    decreases s.len() + zeros.len(),
{
    let z = zeros + s;
    if s.len() > 0 {
        assert(z.drop_last() =~= zeros + s.drop_last());
        lemma_zeros(zeros, s.drop_last());
    } else if zeros.len() > 0 {
        let y = zeros.drop_last();
        assert(z =~= zeros);
        assert(zeros[zeros.len() - 1] == '0');
        assert forall|i: int| 0 <= i < y.len() implies #[trigger] y[i] == '0' by {
            assert(zeros[i] == '0');
        }
        lemma_zeros(y, s);
        assert(y + s =~= y);
        assert(z.drop_last() =~= y);
    } else {
        assert(z =~= s);
    }
}

} // verus!
