//! Texts as sequences of characters, and the few operations the engine builds on.
use vstd::prelude::*;
use vstd::string::*;

verus! {

/// `String::push` of std: appends one character at the end.
pub assume_specification[ String::push ](s: &mut String, c: char)
    ensures
        final(s)@ == old(s)@.push(c),
;

/// `==` on `str` of std: two slices are equal exactly when they hold the same text.
pub assume_specification[ <str as PartialEq>::eq ](a: &str, b: &str) -> (r: bool)
    ensures
        r == (a@ == b@),
;

/// `char::from_u32` of std: a character for every Unicode scalar value, nothing otherwise.
pub assume_specification[ char::from_u32 ](i: u32) -> (r: Option<char>)
    ensures
        r is Some <==> (i <= 0xd7ff || 0xe000 <= i <= 0x10ffff),
        r is Some ==> r->0 as u32 == i,
;

/// The texts held by a sequence of strings.
pub open spec fn texts(v: Seq<String>) -> Seq<Seq<char>> {
    v.map_values(|s: String| s@)
}

/// The text of an optional string.
pub open spec fn opt_text(o: Option<String>) -> Option<Seq<char>> {
    match o {
        Some(s) => Some(s@),
        None => None,
    }
}

/// The decimal digits of ASCII.
pub open spec fn digit(c: char) -> bool {
    '0' <= c <= '9'
}

/// The letters of ASCII.
pub open spec fn letter(c: char) -> bool {
    'a' <= c <= 'z' || 'A' <= c <= 'Z'
}

/// The capital letters of ASCII.
pub open spec fn upper(c: char) -> bool {
    'A' <= c <= 'Z'
}

/// The character `c` moved by `by` code points.
pub open spec fn shifted(c: char, by: int) -> char {
    (c as u32 + by) as u32 as char
}

/// A capital letter made small; any other character as it is.
pub open spec fn lower(c: char) -> char {
    if upper(c) {
        shifted(c, 32)
    } else {
        c
    }
}

/// A small letter made a capital; any other character as it is.
pub open spec fn capital(c: char) -> char {
    if 'a' <= c <= 'z' {
        shifted(c, -32)
    } else {
        c
    }
}

/// Every prefix grows by one character at a time.
pub proof fn lemma_take_next<A>(s: Seq<A>, i: int)
    requires
        0 <= i < s.len(),
    ensures
        s.take(i + 1) == s.take(i).push(s[i]),
        s.take(i + 1).drop_last() == s.take(i),
        s.take(i + 1).last() == s[i],
{
    assert(s.take(i + 1) =~= s.take(i).push(s[i]));
    assert(s.take(i + 1).drop_last() =~= s.take(i));
}

/// The rest of a sequence is its next element and what follows it.
pub proof fn lemma_skip_next<A>(s: Seq<A>, i: int)
    requires
        0 <= i < s.len(),
    ensures
        s.skip(i) == seq![s[i]] + s.skip(i + 1),
        s.skip(i)[0] == s[i],
        s.skip(i).skip(1) == s.skip(i + 1),
{
    assert(s.skip(i) =~= seq![s[i]] + s.skip(i + 1));
    assert(s.skip(i).skip(1) =~= s.skip(i + 1));
}

/// Whether `c` is a decimal digit of ASCII.
pub fn is_digit(c: char) -> (r: bool)
    ensures
        r == digit(c),
{
    '0' <= c && c <= '9'
}

/// Whether `c` is a letter of ASCII.
pub fn is_letter(c: char) -> (r: bool)
    ensures
        r == letter(c),
{
    ('a' <= c && c <= 'z') || ('A' <= c && c <= 'Z')
}

/// Whether `c` is a capital letter of ASCII.
pub fn is_upper(c: char) -> (r: bool)
    ensures
        r == upper(c),
{
    'A' <= c && c <= 'Z'
}

/// The character `by` code points above `c`.
pub fn shift_up(c: char, by: u32) -> (r: char)
    requires
        c as u32 + by <= 0xd7ff || (0xe000 <= c as u32 + by <= 0x10ffff),
    ensures
        r == shifted(c, by as int),
{
    let n: u32 = c as u32 + by;
    match char::from_u32(n) {
        Some(r) => {
            proof {
                vstd::utf8::char_u32_cast(r, n);
            }
            r
        },
        None => c,
    }
}

/// The character `by` code points below `c`.
pub fn shift_down(c: char, by: u32) -> (r: char)
    requires
        by <= c as u32,
        c as u32 - by <= 0xd7ff || 0xe000 <= c as u32 - by,
    ensures
        r == shifted(c, -by),
{
    let n: u32 = c as u32 - by;
    match char::from_u32(n) {
        Some(r) => {
            proof {
                vstd::utf8::char_u32_cast(r, n);
            }
            r
        },
        None => c,
    }
}

/// A capital letter made small.
pub fn to_lower(c: char) -> (r: char)
    ensures
        r == lower(c),
{
    if is_upper(c) {
        shift_up(c, 32)
    } else {
        c
    }
}

/// A small letter made a capital.
pub fn to_capital(c: char) -> (r: char)
    ensures
        r == capital(c),
{
    if 'a' <= c && c <= 'z' {
        shift_down(c, 32)
    } else {
        c
    }
}

/// The characters of a text.
pub fn chars_of(s: &str) -> (r: Vec<char>)
    ensures
        r@ == s@,
{
    let mut v: Vec<char> = Vec::new();
    for c in it: s.chars()
        invariant
            v@ == it.seq().take(it.index()),
            it.seq() == s@,
    {
        v.push(c);
    }
    v
}

/// The text made of the characters `from..to`.
pub fn slice_text(v: &Vec<char>, from: usize, to: usize) -> (r: String)
    requires
        from <= to <= v@.len(),
    ensures
        r@ == v@.subrange(from as int, to as int),
{
    let mut s: String = String::new();
    let mut i: usize = from;
    while i < to
        invariant
            from <= i <= to <= v@.len(),
            s@ == v@.subrange(from as int, i as int),
        decreases to - i,
    {
        s.push(v[i]);
        i = i + 1;
        assert(v@.subrange(from as int, i as int) =~= v@.subrange(from as int, i - 1).push(
            v@[i - 1],
        ));
    }
    s
}

/// The text made of all of `v`.
pub fn text_of(v: &Vec<char>) -> (r: String)
    ensures
        r@ == v@,
{
    let r = slice_text(v, 0, v.len());
    assert(v@.subrange(0, v@.len() as int) =~= v@);
    r
}

/// The text of a single character.
pub fn char_text(c: char) -> (r: String)
    ensures
        r@ == seq![c],
{
    let mut s: String = String::new();
    s.push(c);
    assert(s@ =~= seq![c]);
    s
}

/// Two texts, one after the other.
pub fn joined(a: &str, b: &str) -> (r: String)
    ensures
        r@ == a@ + b@,
{
    let mut s: String = a.to_owned();
    s.append(b);
    s
}

/// Whether the characters from `at` on start with `needle`.
pub fn starts_at(v: &Vec<char>, at: usize, needle: &Vec<char>) -> (r: bool)
    requires
        at <= v@.len(),
    ensures
        r == needle@.is_prefix_of(v@.skip(at as int)),
{
    if v.len() - at < needle.len() {
        return false;
    }
    let mut i: usize = 0;
    while i < needle.len()
        invariant
            at + needle.len() <= v.len(),
            i <= needle@.len(),
            forall|j: int| 0 <= j < i ==> v@[at + j] == needle@[j],
        decreases needle.len() - i,
    {
        if v[at + i] != needle[i] {
            proof {
                assert(v@.skip(at as int)[i as int] != needle@[i as int]);
                assert(v@.skip(at as int).take(needle@.len() as int)[i as int] != needle@[i as int]);
            }
            return false;
        }
        i = i + 1;
    }
    proof {
        assert(needle@ =~= v@.skip(at as int).take(needle@.len() as int));
    }
    true
}

/// Whether `text` starts with `prefix`.
pub fn starts_with(text: &str, prefix: &str) -> (r: bool)
    ensures
        r == prefix@.is_prefix_of(text@),
{
    let v = chars_of(text);
    let p = chars_of(prefix);
    assert(v@.skip(0) =~= v@);
    starts_at(&v, 0, &p)
}

/// Whether `text` is one of `list`.
pub fn has_text(list: &Vec<String>, text: &str) -> (r: bool)
    ensures
        r == texts(list@).contains(text@),
{
    let mut i: usize = 0;
    while i < list.len()
        invariant
            i <= list@.len(),
            forall|j: int| 0 <= j < i ==> texts(list@)[j] != text@,
        decreases list.len() - i,
    {
        if *list[i].as_str() == *text {
            assert(texts(list@)[i as int] == text@);
            return true;
        }
        i = i + 1;
    }
    false
}

/// Whether `c` is one of `list`.
pub fn has_char(list: &Vec<char>, c: char) -> (r: bool)
    ensures
        r == list@.contains(c),
{
    let mut i: usize = 0;
    while i < list.len()
        invariant
            i <= list@.len(),
            forall|j: int| 0 <= j < i ==> list@[j] != c,
        decreases list.len() - i,
    {
        if list[i] == c {
            assert(list@.contains(c));
            return true;
        }
        i = i + 1;
    }
    false
}

/// A copy of a list of texts.
pub fn copy_texts(list: &Vec<String>) -> (r: Vec<String>)
    ensures
        texts(r@) == texts(list@),
{
    let mut out: Vec<String> = Vec::new();
    let mut i: usize = 0;
    while i < list.len()
        invariant
            i <= list@.len(),
            texts(out@) == texts(list@).take(i as int),
        decreases list.len() - i,
    {
        out.push(list[i].clone());
        i = i + 1;
        proof {
            lemma_take_next(texts(list@), i - 1);
            assert(texts(out@) =~= texts(list@).take(i as int));
        }
    }
    assert(texts(list@).take(i as int) =~= texts(list@));
    out
}

/// The characters that Unicode counts as white space.
pub open spec fn whitespace(c: char) -> bool {
    ||| '\u{9}' <= c <= '\u{d}'
    ||| c == ' '
    ||| c == '\u{85}'
    ||| c == '\u{a0}'
    ||| c == '\u{1680}'
    ||| '\u{2000}' <= c <= '\u{200a}'
    ||| c == '\u{2028}'
    ||| c == '\u{2029}'
    ||| c == '\u{202f}'
    ||| c == '\u{205f}'
    ||| c == '\u{3000}'
}

/// The control characters of Unicode.
pub open spec fn control(c: char) -> bool {
    c <= '\u{1f}' || '\u{7f}' <= c <= '\u{9f}'
}

/// How many bytes `c` takes in UTF-8.
pub open spec fn byte_len(c: char) -> nat {
    if c as u32 <= 0x7f {
        1
    } else if c as u32 <= 0x7ff {
        2
    } else if c as u32 <= 0xffff {
        3
    } else {
        4
    }
}

/// `s` without the white space at its end.
pub open spec fn trim_end(s: Seq<char>) -> Seq<char>
    decreases s.len(),
{
    if s.len() > 0 && whitespace(s.last()) {
        trim_end(s.drop_last())
    } else {
        s
    }
}

/// `s` without the white space at its start.
pub open spec fn trim_start(s: Seq<char>) -> Seq<char>
    decreases s.len(),
{
    if s.len() > 0 && whitespace(s[0]) {
        trim_start(s.skip(1))
    } else {
        s
    }
}

/// `s` without the white space at both ends.
pub open spec fn trim(s: Seq<char>) -> Seq<char> {
    trim_end(trim_start(s))
}

/// The place of the first `c` in `s`, or the length of `s` where there is none.
pub open spec fn first_at(s: Seq<char>, c: char) -> nat
    decreases s.len(),
{
    if s.len() == 0 || s[0] == c {
        0
    } else {
        1 + first_at(s.skip(1), c)
    }
}

pub proof fn lemma_first_at(s: Seq<char>, c: char)
    ensures
        first_at(s, c) <= s.len(),
        first_at(s, c) < s.len() ==> s[first_at(s, c) as int] == c,
        forall|i: int| 0 <= i < first_at(s, c) ==> #[trigger] s[i] != c,
    decreases s.len(),
{
    if s.len() > 0 && s[0] != c {
        let t = s.skip(1);
        lemma_first_at(t, c);
        assert forall|i: int| 0 <= i < first_at(s, c) implies #[trigger] s[i] != c by {
            if i > 0 {
                assert(s[i] == t[i - 1]);
            }
        }
        if first_at(s, c) < s.len() {
            assert(s[first_at(s, c) as int] == t[first_at(t, c) as int]);
        }
    }
}

/// A place of `c` with none before it is the first.
pub proof fn lemma_is_first_at(s: Seq<char>, c: char, n: int)
    requires
        0 <= n <= s.len(),
        n < s.len() ==> s[n] == c,
        forall|i: int| 0 <= i < n ==> #[trigger] s[i] != c,
    ensures
        first_at(s, c) == n,
{
    lemma_first_at(s, c);
}

/// The pieces of `s` between the separators `c`.
pub open spec fn split(s: Seq<char>, c: char) -> Seq<Seq<char>>
    decreases s.len(),
    via split_decreases
{
    let n = first_at(s, c) as int;
    if n >= s.len() {
        seq![s]
    } else {
        seq![s.take(n)] + split(s.skip(n + 1), c)
    }
}

#[via_fn]
proof fn split_decreases(s: Seq<char>, c: char) {
    lemma_first_at(s, c);
}

/// A line without the carriage return before its line feed.
pub open spec fn without_cr(s: Seq<char>) -> Seq<char> {
    if s.len() > 0 && s.last() == '\r' {
        s.drop_last()
    } else {
        s
    }
}

/// The lines of `s`. The line feed of the last line is optional.
pub open spec fn lines(s: Seq<char>) -> Seq<Seq<char>>
    decreases s.len(),
    via lines_decreases
{
    let n = first_at(s, '\n') as int;
    if s.len() == 0 {
        seq![]
    } else if n >= s.len() {
        seq![s]
    } else {
        seq![without_cr(s.take(n))] + lines(s.skip(n + 1))
    }
}

#[via_fn]
proof fn lines_decreases(s: Seq<char>) {
    lemma_first_at(s, '\n');
}

/// Whether `c` is white space.
pub fn is_whitespace(c: char) -> (r: bool)
    ensures
        r == whitespace(c),
{
    ('\u{9}' <= c && c <= '\u{d}') || c == ' ' || c == '\u{85}' || c == '\u{a0}' || c == '\u{1680}'
        || ('\u{2000}' <= c && c <= '\u{200a}') || c == '\u{2028}' || c == '\u{2029}' || c
        == '\u{202f}' || c == '\u{205f}' || c == '\u{3000}'
}

/// Whether `c` is a control character.
pub fn is_control(c: char) -> (r: bool)
    ensures
        r == control(c),
{
    c <= '\u{1f}' || ('\u{7f}' <= c && c <= '\u{9f}')
}

/// How many bytes `c` takes in UTF-8.
pub fn utf8_width(c: char) -> (r: usize)
    ensures
        r == byte_len(c),
{
    let n: u32 = c as u32;
    if n <= 0x7f {
        1
    } else if n <= 0x7ff {
        2
    } else if n <= 0xffff {
        3
    } else {
        4
    }
}

/// Where the white space at the end of `v[..to]` begins, not before `from`.
pub fn trimmed_end(v: &Vec<char>, from: usize, to: usize) -> (r: usize)
    requires
        from <= to <= v@.len(),
    ensures
        from <= r <= to,
        trim_end(v@.subrange(from as int, to as int)) == v@.subrange(from as int, r as int),
{
    let mut n: usize = to;
    while n > from && is_whitespace(v[n - 1])
        invariant
            from <= n <= to <= v@.len(),
            trim_end(v@.subrange(from as int, to as int)) == trim_end(
                v@.subrange(from as int, n as int),
            ),
        decreases n,
    {
        proof {
            let s = v@.subrange(from as int, n as int);
            assert(s.last() == v@[n - 1]);
            assert(s.drop_last() =~= v@.subrange(from as int, n - 1));
        }
        n = n - 1;
    }
    proof {
        if n > from {
            assert(v@.subrange(from as int, n as int).last() == v@[n - 1]);
        }
    }
    n
}

/// Where the white space at the start of `v[from..to]` ends.
pub fn trimmed_start(v: &Vec<char>, from: usize, to: usize) -> (r: usize)
    requires
        from <= to <= v@.len(),
    ensures
        from <= r <= to,
        trim_start(v@.subrange(from as int, to as int)) == v@.subrange(r as int, to as int),
{
    let mut n: usize = from;
    while n < to && is_whitespace(v[n])
        invariant
            from <= n <= to <= v@.len(),
            trim_start(v@.subrange(from as int, to as int)) == trim_start(
                v@.subrange(n as int, to as int),
            ),
        decreases to - n,
    {
        proof {
            let s = v@.subrange(n as int, to as int);
            assert(s[0] == v@[n as int]);
            assert(s.skip(1) =~= v@.subrange(n + 1, to as int));
        }
        n = n + 1;
    }
    proof {
        if n < to {
            assert(v@.subrange(n as int, to as int)[0] == v@[n as int]);
        }
    }
    n
}

/// The place of the first `c` at or after `from`, counted from `from`.
pub fn find_char(v: &Vec<char>, from: usize, c: char) -> (r: usize)
    requires
        from <= v@.len(),
    ensures
        from <= r <= v@.len(),
        r - from == first_at(v@.skip(from as int), c),
{
    let mut i: usize = from;
    while i < v.len() && v[i] != c
        invariant
            from <= i <= v@.len(),
            forall|j: int| from <= j < i ==> #[trigger] v@[j] != c,
        decreases v.len() - i,
    {
        i = i + 1;
    }
    proof {
        let s = v@.skip(from as int);
        assert forall|j: int| 0 <= j < i - from implies #[trigger] s[j] != c by {
            assert(v@[from + j] != c);
        }
        lemma_is_first_at(s, c, i - from);
    }
    i
}

/// The pieces of `s` between the separators `c`.
pub fn split_text(s: &str, c: char) -> (r: Vec<String>)
    ensures
        texts(r@) == split(s@, c),
{
    let v = chars_of(s);
    let mut out: Vec<String> = Vec::new();
    let mut i: usize = 0;
    assert(v@.skip(0) =~= v@);
    assert(texts(out@) + split(v@, c) =~= split(v@, c));
    loop
        invariant
            i <= v@.len(),
            v@ == s@,
            texts(out@) + split(v@.skip(i as int), c) == split(s@, c),
        decreases v@.len() + 1 - i,
    {
        let n = find_char(&v, i, c);
        let piece = slice_text(&v, i, n);
        let ghost before = texts(out@);
        let ghost rest = v@.skip(i as int);
        out.push(piece);
        proof {
            lemma_first_at(rest, c);
            assert(texts(out@) =~= before.push(piece@));
            assert(piece@ =~= rest.take(n - i));
        }
        if n >= v.len() {
            assert(piece@ =~= rest);
            assert(texts(out@) =~= before + split(rest, c));
            return out;
        }
        proof {
            assert(rest.skip(n - i + 1) =~= v@.skip(n + 1));
            assert(texts(out@) + split(v@.skip(n + 1), c) =~= before + split(rest, c));
        }
        i = n + 1;
    }
}

/// The lines of `s`.
pub fn lines_of(s: &str) -> (r: Vec<String>)
    ensures
        texts(r@) == lines(s@),
{
    let v = chars_of(s);
    let mut out: Vec<String> = Vec::new();
    let mut i: usize = 0;
    assert(v@.skip(0) =~= v@);
    assert(texts(out@) + lines(v@) =~= lines(v@));
    while i < v.len()
        invariant
            i <= v@.len(),
            v@ == s@,
            texts(out@) + lines(v@.skip(i as int)) == lines(s@),
        decreases v.len() - i,
    {
        let n = find_char(&v, i, '\n');
        let ghost before = texts(out@);
        let ghost rest = v@.skip(i as int);
        proof {
            lemma_first_at(rest, '\n');
        }
        if n >= v.len() {
            let piece = slice_text(&v, i, n);
            out.push(piece);
            proof {
                assert(piece@ =~= rest);
                assert(texts(out@) =~= before.push(piece@));
                assert(texts(out@) =~= before + lines(rest));
            }
            return out;
        }
        let end: usize = if n > i && v[n - 1] == '\r' {
            n - 1
        } else {
            n
        };
        let piece = slice_text(&v, i, end);
        out.push(piece);
        proof {
            let line = rest.take(n - i);
            if n > i {
                assert(line.last() == v@[n - 1]);
            }
            assert(piece@ =~= without_cr(line));
            assert(rest.skip(n - i + 1) =~= v@.skip(n + 1));
            assert(texts(out@) =~= before.push(piece@));
            assert(texts(out@) + lines(v@.skip(n + 1)) =~= before + lines(rest));
        }
        i = n + 1;
    }
    assert(v@.skip(i as int) =~= seq![]);
    assert(texts(out@) + lines(v@.skip(i as int)) =~= texts(out@));
    out
}

/// A number in decimal digits.
pub open spec fn decimal(n: nat) -> Seq<char>
    decreases n,
{
    if n < 10 {
        seq![shifted('0', n as int)]
    } else {
        decimal(n / 10).push(shifted('0', (n % 10) as int))
    }
}

/// `s` with zeros in front up to `width` characters.
pub open spec fn zero_padded(s: Seq<char>, width: nat) -> Seq<char> {
    if s.len() >= width {
        s
    } else {
        Seq::new((width - s.len()) as nat, |i: int| '0') + s
    }
}

/// A number in decimal digits.
pub fn number_text(n: u64) -> (r: String)
    ensures
        r@ == decimal(n as nat),
    decreases n,
{
    let last = shift_up('0', (n % 10) as u32);
    if n < 10 {
        char_text(last)
    } else {
        let mut s = number_text(n / 10);
        s.push(last);
        s
    }
}

/// `s` with zeros in front up to `width` characters.
pub fn pad_zeros(s: &str, width: usize) -> (r: String)
    ensures
        r@ == zero_padded(s@, width as nat),
{
    let n: usize = s.unicode_len();
    if n >= width {
        return s.to_owned();
    }
    let mut out: String = String::new();
    let mut i: usize = 0;
    while i < width - n
        invariant
            i <= width - n,
            n < width,
            out@ == Seq::new(i as nat, |j: int| '0'),
        decreases width - n - i,
    {
        out.push('0');
        i = i + 1;
        assert(out@ =~= Seq::new(i as nat, |j: int| '0'));
    }
    out.append(s);
    assert(out@ =~= zero_padded(s@, width as nat));
    out
}

/// The place of the last `c` in `s`, if there is one.
pub open spec fn last_at(s: Seq<char>, c: char) -> Option<nat>
    decreases s.len(),
{
    if s.len() == 0 {
        None
    } else if s.last() == c {
        Some((s.len() - 1) as nat)
    } else {
        last_at(s.drop_last(), c)
    }
}

/// The place of the last `c` in `v`, if there is one.
pub fn find_last(v: &Vec<char>, c: char) -> (r: Option<usize>)
    ensures
        match r {
            Some(i) => i < v@.len() && last_at(v@, c) == Some(i as nat),
            None => last_at(v@, c) is None,
        },
{
    let mut i: usize = v.len();
    assert(v@.take(i as int) =~= v@);
    while i > 0
        invariant
            i <= v@.len(),
            last_at(v@, c) == last_at(v@.take(i as int), c),
        decreases i,
    {
        proof {
            lemma_take_next(v@, i - 1);
        }
        if v[i - 1] == c {
            return Some(i - 1);
        }
        i = i - 1;
    }
    None
}

/// Whether `part` stands somewhere in `s`.
pub open spec fn occurs(part: Seq<char>, s: Seq<char>) -> bool {
    exists|i: int| 0 <= i <= s.len() && part.is_prefix_of(#[trigger] s.skip(i))
}

/// Whether `part` stands somewhere in `s`.
pub fn occurs_in(part: &str, s: &str) -> (r: bool)
    ensures
        r == occurs(part@, s@),
{
    let v = chars_of(s);
    let p = chars_of(part);
    let mut i: usize = 0;
    loop
        invariant
            i <= v@.len(),
            v@ == s@,
            p@ == part@,
            forall|j: int| 0 <= j < i ==> !part@.is_prefix_of(#[trigger] s@.skip(j)),
        decreases v@.len() + 1 - i,
    {
        if starts_at(&v, i, &p) {
            return true;
        }
        if i >= v.len() {
            return false;
        }
        i = i + 1;
    }
}

/// `c` becomes `with`, every other character stays.
pub open spec fn swap(c: char, with: Seq<char>) -> spec_fn(char) -> Seq<char> {
    |x: char|
        if x == c {
            with
        } else {
            seq![x]
        }
}

/// `s` with every `c` written as `with`.
pub open spec fn replaced(s: Seq<char>, c: char, with: Seq<char>) -> Seq<char> {
    s.flat_map(swap(c, with))
}

/// `s` with every `c` written as `with`.
pub fn replace_char(s: &str, c: char, with: &str) -> (r: String)
    ensures
        r@ == replaced(s@, c, with@),
{
    let v = chars_of(s);
    let ghost f = swap(c, with@);
    let mut out: String = String::new();
    assert(v@.take(0).flat_map(f) =~= seq![]);
    for i in 0..v.len()
        invariant
            f == swap(c, with@),
            out@ == v@.take(i as int).flat_map(f),
    {
        let ghost out0 = out@;
        proof {
            v@.lemma_flat_map_take_append(f, i as int);
        }
        if v[i] == c {
            out.append(with);
        } else {
            out.push(v[i]);
            assert(out@ =~= out0 + seq![v@[i as int]]);
        }
    }
    assert(v@.take(v@.len() as int) =~= v@);
    out
}

/// Texts with `sep` between them.
pub open spec fn join(v: Seq<Seq<char>>, sep: Seq<char>) -> Seq<char>
    decreases v.len(),
{
    if v.len() == 0 {
        seq![]
    } else if v.len() == 1 {
        v[0]
    } else {
        join(v.drop_last(), sep) + sep + v.last()
    }
}

/// Puts `sep` between texts.
pub fn join_texts(v: &Vec<String>, sep: &str) -> (r: String)
    ensures
        r@ == join(texts(v@), sep@),
{
    let ghost all = texts(v@);
    let mut out: String = String::new();
    let mut i: usize = 0;
    assert(all.take(0) =~= seq![]);
    while i < v.len()
        invariant
            i <= v@.len(),
            all == texts(v@),
            out@ == join(all.take(i as int), sep@),
        decreases v.len() - i,
    {
        proof {
            lemma_take_next(all, i as int);
        }
        if i > 0 {
            out.append(sep);
        } else {
            assert(all.take(1)[0] == all[0]);
        }
        out.append(v[i].as_str());
        i = i + 1;
        assert(out@ =~= join(all.take(i as int), sep@));
    }
    assert(all.take(i as int) =~= all);
    out
}

/// A text in small letters.
pub uninterp spec fn lowercased(s: Seq<char>) -> Seq<char>;

/// `str::to_lowercase`: the outcome depends on the text alone. In a text that is all ASCII
/// exactly the letters change.
#[verifier::external_body]
pub(crate) fn to_lowercase(s: &str) -> (r: String)
    ensures
        r@ == lowercased(s@),
        (forall|i: int| 0 <= i < s@.len() ==> (#[trigger] s@[i]) as u32 <= 0x7f) ==> r@
            == s@.map_values(|c: char| lower(c)),
{
    s.to_lowercase()
}

/// Where the word ends that goes on from `i`.
pub open spec fn word_end(s: Seq<char>, i: int) -> int
    decreases s.len() - i,
{
    if i >= s.len() || whitespace(s[i]) {
        i
    } else {
        word_end(s, i + 1)
    }
}

proof fn lemma_word_end(s: Seq<char>, i: int)
    requires
        0 <= i <= s.len(),
    ensures
        i <= word_end(s, i) <= s.len(),
    decreases s.len() - i,
{
    if i < s.len() && !whitespace(s[i]) {
        lemma_word_end(s, i + 1);
    }
}

/// The words of a text from `i` on: what stands between white space.
pub open spec fn words_from(s: Seq<char>, i: int) -> Seq<Seq<char>>
    decreases s.len() - i,
    via words_from_decreases
{
    if i < 0 || i >= s.len() {
        seq![]
    } else if whitespace(s[i]) {
        words_from(s, i + 1)
    } else {
        seq![s.subrange(i, word_end(s, i))] + words_from(s, word_end(s, i))
    }
}

#[via_fn]
proof fn words_from_decreases(s: Seq<char>, i: int) {
    if 0 <= i < s.len() && !whitespace(s[i]) {
        lemma_word_end(s, i + 1);
    }
}

/// The words of a text.
pub fn split_words(s: &str) -> (r: Vec<String>)
    ensures
        texts(r@) == words_from(s@, 0),
{
    let v = chars_of(s);
    let mut out: Vec<String> = Vec::new();
    let mut i: usize = 0;
    assert(texts(out@) + words_from(s@, 0) =~= words_from(s@, 0));
    while i < v.len()
        invariant
            i <= v@.len(),
            v@ == s@,
            texts(out@) + words_from(s@, i as int) == words_from(s@, 0),
        decreases v.len() - i,
    {
        if is_whitespace(v[i]) {
            i = i + 1;
        } else {
            let start = i;
            let ghost had = texts(out@);
            i = i + 1;
            while i < v.len() && !is_whitespace(v[i])
                invariant
                    start < i <= v@.len(),
                    v@ == s@,
                    word_end(s@, start as int) == word_end(s@, i as int),
                decreases v.len() - i,
            {
                i = i + 1;
            }
            let w = slice_text(&v, start, i);
            out.push(w);
            proof {
                let rest = words_from(s@, i as int);
                assert(texts(out@) =~= had.push(w@));
                assert(had + (seq![w@] + rest) =~= texts(out@) + rest);
            }
        }
    }
    assert(texts(out@) + words_from(s@, i as int) =~= texts(out@));
    out
}

/// A text without a character has no place for it.
pub proof fn lemma_first_of_none(s: Seq<char>, c: char)
    requires
        !s.contains(c),
    ensures
        first_at(s, c) == s.len(),
{
    lemma_first_at(s, c);
    if first_at(s, c) < s.len() {
        assert(s[first_at(s, c) as int] == c);
    }
}

/// The first place of a character stays where it is when more follows.
pub proof fn lemma_first_stays(s: Seq<char>, more: Seq<char>, c: char)
    requires
        first_at(s, c) < s.len(),
    ensures
        first_at(s + more, c) == first_at(s, c),
{
    lemma_first_at(s, c);
    lemma_is_first_at(s + more, c, first_at(s, c) as int);
}

/// A piece behind a separator is one piece more.
pub proof fn lemma_split_push(a: Seq<char>, w: Seq<char>, c: char)
    requires
        !w.contains(c),
    ensures
        split(a + seq![c] + w, c) == split(a, c).push(w),
    decreases a.len(),
{
    let s = a + seq![c] + w;
    let n = first_at(a, c) as int;
    lemma_first_at(a, c);
    if n >= a.len() {
        assert forall|j: int| 0 <= j < n implies s[j] != c by {
            assert(s[j] == a[j]);
        }
        assert(s[n] == c);
        lemma_is_first_at(s, c, n);
        assert(s.take(n) =~= a);
        assert(s.skip(n + 1) =~= w);
        lemma_first_of_none(w, c);
        assert(split(w, c) =~= seq![w]);
        assert(split(s, c) =~= seq![a] + seq![w]);
        assert(split(a, c) =~= seq![a]);
        assert(split(s, c) =~= split(a, c).push(w));
    } else {
        assert(s =~= a + (seq![c] + w));
        lemma_first_stays(a, seq![c] + w, c);
        let rest = a.skip(n + 1);
        assert(s.skip(n + 1) =~= rest + seq![c] + w);
        assert(s.take(n) =~= a.take(n));
        lemma_split_push(rest, w, c);
        assert(split(s, c) =~= split(a, c).push(w));
    }
}

/// A copy of a list of characters.
pub fn copy_chars(v: &Vec<char>) -> (r: Vec<char>)
    ensures
        r@ == v@,
{
    let mut out: Vec<char> = Vec::new();
    for i in 0..v.len()
        invariant
            out@ == v@.take(i as int),
    {
        out.push(v[i]);
        proof {
            lemma_take_next(v@, i as int);
        }
    }
    assert(v@.take(v@.len() as int) =~= v@);
    out
}

/// Texts that are not empty.
pub open spec fn not_empty() -> spec_fn(Seq<char>) -> bool {
    |s: Seq<char>| s.len() > 0
}

} // verus!
