//! JSON with comments and trailing commas, made plain JSON.
//!
//! What is taken out is replaced by blanks, byte for byte, so that a place in the plain
//! text is the same place in the text as it was written.
use vstd::prelude::*;
use vstd::string::*;
use crate::text::{
    byte_len, chars_of, is_whitespace, lemma_skip_next, text_of, utf8_width, whitespace,
};

verus! {

/// Where a reader of JSON with comments stands.
#[derive(Clone, Copy, Debug, PartialEq, Eq, Structural)]
pub enum Lex {
    /// Between the tokens.
    Plain,
    /// Inside a string; the flag says that the last character was an escaping backslash.
    Text(bool),
    /// Inside a comment that ends with the line.
    Line,
    /// Inside a block comment; the character is the one just read.
    Block(char),
}

/// `n` blanks.
pub open spec fn blanks(n: nat) -> Seq<char> {
    Seq::new(n, |i: int| ' ')
}

/// Where a reader inside or outside a string stands after `c`.
pub open spec fn after_char(m: Lex, c: char) -> Lex {
    match m {
        Lex::Text(true) => Lex::Text(false),
        Lex::Text(false) => if c == '\\' {
            Lex::Text(true)
        } else if c == '"' {
            Lex::Plain
        } else {
            Lex::Text(false)
        },
        _ => if c == '"' {
            Lex::Text(false)
        } else {
            Lex::Plain
        },
    }
}

/// One step of a reader that stands at `m` before `s`: what is shown, how many characters
/// were read, and where the reader stands then.
pub open spec fn lex_step(s: Seq<char>, m: Lex) -> (Seq<char>, int, Lex) {
    let c = s[0];
    match m {
        Lex::Text(_) => (seq![c], 1, after_char(m, c)),
        Lex::Line => if c == '\n' {
            (seq![c], 1, Lex::Plain)
        } else {
            (blanks(byte_len(c)), 1, Lex::Line)
        },
        Lex::Block(last) => (
            if c == '\n' {
                seq![c]
            } else {
                blanks(byte_len(c))
            },
            1,
            if last == '*' && c == '/' {
                Lex::Plain
            } else {
                Lex::Block(c)
            },
        ),
        Lex::Plain => if c == '/' && s.len() > 1 && s[1] == '/' {
            (blanks(2), 2, Lex::Line)
        } else if c == '/' && s.len() > 1 && s[1] == '*' {
            (blanks(2), 2, Lex::Block('\0'))
        } else {
            (seq![c], 1, after_char(m, c))
        },
    }
}

/// `s` with its comments blanked out, read from the standing `m`.
pub open spec fn uncommented(s: Seq<char>, m: Lex) -> Seq<char>
    decreases s.len(),
{
    if s.len() == 0 {
        seq![]
    } else {
        let step = lex_step(s, m);
        step.0 + uncommented(s.skip(step.1), step.2)
    }
}

/// Whether the next character is read and is no white space.
pub open spec fn counts(s: Seq<char>, m: Lex) -> bool {
    (m is Text || (m is Plain && lex_step(s, m).1 == 1)) && !whitespace(s[0])
}

/// How far `s` goes up to its last character that stands outside comments and is no white
/// space; 0 where there is none.
pub open spec fn solid_end(s: Seq<char>, m: Lex) -> int
    decreases s.len(),
{
    if s.len() == 0 {
        0
    } else {
        let step = lex_step(s, m);
        let rest = solid_end(s.skip(step.1), step.2);
        if rest > 0 {
            step.1 + rest
        } else if counts(s, m) {
            1
        } else {
            0
        }
    }
}

/// Where a reader that stands at `m` before `s` stands behind it.
pub open spec fn ended(s: Seq<char>, m: Lex) -> Lex
    decreases s.len(),
{
    if s.len() == 0 {
        m
    } else {
        let step = lex_step(s, m);
        ended(s.skip(step.1), step.2)
    }
}

/// Whether a text holds nothing but white space.
pub open spec fn blank(s: Seq<char>) -> bool {
    forall|i: int| 0 <= i < s.len() ==> whitespace(#[trigger] s[i])
}

/// Whether the reader is inside a string after the first `i` characters.
pub open spec fn standing(s: Seq<char>, i: int) -> Lex
    decreases i,
{
    if i <= 0 {
        Lex::Plain
    } else {
        after_char(standing(s, i - 1), s[i - 1])
    }
}

/// The first character from `i` on that is no white space.
pub open spec fn solid_from(s: Seq<char>, i: int) -> Option<char>
    decreases s.len() - i,
{
    if i < 0 || i >= s.len() {
        None
    } else if whitespace(s[i]) {
        solid_from(s, i + 1)
    } else {
        Some(s[i])
    }
}

/// Whether the character at `i` is a comma outside a string with only a closing bracket
/// after it.
pub open spec fn trailing_comma(s: Seq<char>, i: int) -> bool {
    s[i] == ',' && standing(s, i) == Lex::Plain && (solid_from(s, i + 1) == Some('}') || solid_from(
        s,
        i + 1,
    ) == Some(']'))
}

/// `s` with its trailing commas blanked out.
pub open spec fn without_commas(s: Seq<char>) -> Seq<char> {
    Seq::new(
        s.len(),
        |i: int|
            if trailing_comma(s, i) {
                ' '
            } else {
                s[i]
            },
    )
}

/// The plain JSON of a text.
pub open spec fn plain_json(s: Seq<char>) -> Seq<char> {
    without_commas(uncommented(s, Lex::Plain))
}

/// How many bytes a text takes in UTF-8.
pub open spec fn byte_size(s: Seq<char>) -> nat
    decreases s.len(),
{
    if s.len() == 0 {
        0
    } else {
        byte_len(s[0]) + byte_size(s.skip(1))
    }
}

proof fn lemma_byte_size_add(a: Seq<char>, b: Seq<char>)
    ensures
        byte_size(a + b) == byte_size(a) + byte_size(b),
    decreases a.len(),
{
    if a.len() == 0 {
        assert(a + b =~= b);
    } else {
        lemma_byte_size_add(a.skip(1), b);
        assert((a + b).skip(1) =~= a.skip(1) + b);
    }
}

proof fn lemma_byte_size_blanks(n: nat)
    ensures
        byte_size(blanks(n)) == n,
    decreases n,
{
    if n > 0 {
        assert(blanks(n).skip(1) =~= blanks((n - 1) as nat));
        lemma_byte_size_blanks((n - 1) as nat);
    }
}

proof fn lemma_byte_size_one(c: char)
    ensures
        byte_size(seq![c]) == byte_len(c),
{
    reveal_with_fuel(byte_size, 2);
    assert(seq![c].skip(1) =~= seq![]);
}

proof fn lemma_comment_bytes(s: Seq<char>, m: Lex)
    ensures
        byte_size(uncommented(s, m)) == byte_size(s),
    decreases s.len(),
{
    if s.len() > 0 {
        let step = lex_step(s, m);
        let read = s.take(step.1);
        lemma_comment_bytes(s.skip(step.1), step.2);
        lemma_byte_size_add(step.0, uncommented(s.skip(step.1), step.2));
        lemma_byte_size_add(read, s.skip(step.1));
        assert(read + s.skip(step.1) =~= s);
        lemma_byte_size_one(s[0]);
        lemma_byte_size_blanks(byte_len(s[0]));
        if step.1 == 1 {
            assert(read =~= seq![s[0]]);
        } else {
            lemma_byte_size_one(s[1]);
            lemma_byte_size_blanks(2);
            lemma_byte_size_add(seq![s[0]], seq![s[1]]);
            assert(read =~= seq![s[0]] + seq![s[1]]);
        }
    }
}

proof fn lemma_comma_bytes(s: Seq<char>, n: int)
    requires
        0 <= n <= s.len(),
    ensures
        byte_size(without_commas(s).skip(n)) == byte_size(s.skip(n)),
    decreases s.len() - n,
{
    if n < s.len() {
        lemma_comma_bytes(s, n + 1);
        lemma_skip_next(s, n);
        lemma_skip_next(without_commas(s), n);
    } else {
        assert(s.skip(n) =~= without_commas(s).skip(n));
    }
}

/// The plain JSON takes exactly as many bytes as the text it was made from.
pub proof fn law_places_are_kept(s: Seq<char>)
    ensures
        byte_size(plain_json(s)) == byte_size(s),
{
    let u = uncommented(s, Lex::Plain);
    lemma_comment_bytes(s, Lex::Plain);
    lemma_comma_bytes(u, 0);
    assert(u.skip(0) =~= u);
    assert(without_commas(u).skip(0) =~= without_commas(u));
}

/// A text that holds neither a comment sign nor a comma is plain JSON already.
pub proof fn law_plain_text_is_kept(s: Seq<char>)
    requires
        forall|i: int| 0 <= i < s.len() ==> #[trigger] s[i] != '/' && s[i] != ',',
    ensures
        plain_json(s) == s,
{
    lemma_plain_kept(s, Lex::Plain);
    assert(without_commas(s) =~= s);
}

proof fn lemma_plain_kept(s: Seq<char>, m: Lex)
    requires
        m is Plain || m is Text,
        forall|i: int| 0 <= i < s.len() ==> #[trigger] s[i] != '/' && s[i] != ',',
    ensures
        uncommented(s, m) == s,
    decreases s.len(),
{
    if s.len() > 0 {
        assert forall|i: int| 0 <= i < s.skip(1).len() implies #[trigger] s.skip(1)[i] != '/'
            && s.skip(1)[i] != ',' by {
            assert(s[i + 1] != '/');
        }
        assert(s[0] != '/');
        lemma_plain_kept(s.skip(1), after_char(m, s[0]));
        assert(seq![s[0]] + s.skip(1) =~= s);
    }
}

/// Texts are read one after the other, unless the first ends with half of the sign that
/// begins a comment.
pub proof fn lemma_read_on(a: Seq<char>, b: Seq<char>, m: Lex)
    requires
        a.len() == 0 || a.last() != '/' || b.len() == 0 || (b[0] != '/' && b[0] != '*') || !(ended(
            a,
            m,
        ) is Plain),
    ensures
        uncommented(a + b, m) == uncommented(a, m) + uncommented(b, ended(a, m)),
        ended(a + b, m) == ended(b, ended(a, m)),
    decreases a.len(),
{
    if a.len() == 0 {
        assert(a + b =~= b);
        assert(uncommented(a, m) + uncommented(b, m) =~= uncommented(b, m));
    } else {
        let step = lex_step(a, m);
        assert((a + b)[0] == a[0]);
        if a.len() > 1 {
            assert((a + b)[1] == a[1]);
        } else {
            assert(a.last() == a[0]);
            if b.len() > 0 {
                assert((a + b)[1] == b[0]);
            }
            assert(step.1 == 1);
            assert(a.skip(1) =~= seq![]);
            assert(ended(a.skip(1), step.2) == step.2);
            assert(ended(a, m) == step.2);
        }
        assert(lex_step(a + b, m) == step);
        let rest = a.skip(step.1);
        if rest.len() > 0 {
            assert(rest.last() == a.last());
        }
        lemma_read_on(rest, b, step.2);
        assert((a + b).skip(step.1) =~= rest + b);
        assert(uncommented(a + b, m) =~= uncommented(a, m) + uncommented(b, ended(a, m)));
    }
}

proof fn lemma_blank_step(s: Seq<char>, m: Lex)
    requires
        s.len() > 0,
        !counts(s, m),
    ensures
        blank(lex_step(s, m).0),
{
}

/// Behind the last character that counts only blanks are read.
pub proof fn lemma_solid_end(s: Seq<char>, m: Lex)
    ensures
        0 <= solid_end(s, m) <= s.len(),
        ({
            let e = solid_end(s, m);
            let at = ended(s.take(e), m);
            &&& blank(uncommented(s.skip(e), at))
            &&& ended(s.skip(e), at) == ended(s, m)
            &&& e > 0 ==> (at is Plain || at is Text)
            &&& at is Text ==> ended(s, m) is Text
            &&& e > 0 ==> !whitespace(s[e - 1])
            &&& e > 0 ==> uncommented(s.take(e), m).len() > 0 && uncommented(s.take(e), m).last()
                == s[e - 1]
        }),
    decreases s.len(),
{
    let e = solid_end(s, m);
    if s.len() == 0 {
        assert(s.take(0) =~= s);
        assert(s.skip(0) =~= s);
    } else {
        let step = lex_step(s, m);
        let k = step.1;
        let s2 = s.skip(k);
        lemma_solid_end(s2, step.2);
        let rest = solid_end(s2, step.2);
        if rest > 0 {
            let head = s.take(e);
            assert(head[0] == s[0]);
            assert(head.len() >= 2);
            assert(head[1] == s[1]);
            assert(lex_step(head, m) == step);
            assert(head.skip(k) =~= s2.take(rest));
            assert(s.skip(e) =~= s2.skip(rest));
            assert(s2[rest - 1] == s[e - 1]);
            let later = uncommented(s2.take(rest), step.2);
            assert((step.0 + later).last() == later.last());
        } else {
            assert(s2.take(0) =~= seq![]);
            assert(s2.skip(0) =~= s2);
            if counts(s, m) {
                let head = s.take(1);
                assert(head[0] == s[0]);
                assert(lex_step(head, m) == step);
                assert(head.skip(1) =~= seq![]);
                assert(ended(head, m) == step.2);
                assert(step.0 + uncommented(head.skip(1), step.2) =~= step.0);
            } else {
                assert(s.take(0) =~= seq![]);
                assert(s.skip(0) =~= s);
                lemma_blank_step(s, m);
                let a = step.0;
                let b = uncommented(s2, step.2);
                assert forall|i: int| 0 <= i < (a + b).len() implies whitespace(
                    #[trigger] (a + b)[i],
                ) by {
                    if i < a.len() {
                        assert((a + b)[i] == a[i]);
                    } else {
                        assert((a + b)[i] == b[i - a.len()]);
                    }
                }
            }
        }
    }
}

/// How far a text goes up to its last character that stands outside comments and is no white
/// space.
pub fn find_solid_end(v: &Vec<char>) -> (r: usize)
    ensures
        r == solid_end(v@, Lex::Plain),
        r <= v@.len(),
{
    let mut m = Lex::Plain;
    let mut best: usize = 0;
    let mut i: usize = 0;
    assert(v@.skip(0) =~= v@);
    while i < v.len()
        invariant
            i <= v@.len(),
            best <= i,
            solid_end(v@, Lex::Plain) == (if solid_end(v@.skip(i as int), m) > 0 {
                i + solid_end(v@.skip(i as int), m)
            } else {
                best as int
            }),
        decreases v.len() - i,
    {
        let c = v[i];
        let ghost s = v@.skip(i as int);
        let ghost m0 = m;
        let ghost i0 = i as int;
        proof {
            lemma_skip_next(v@, i as int);
            if i + 1 < v.len() {
                assert(s[1] == v@[i + 1]);
                assert(s.skip(2) =~= v@.skip(i + 2));
            }
        }
        let mut read: usize = 1;
        let mut kept = false;
        match m {
            Lex::Text(_) => {
                kept = true;
                m = char_step(m, c);
            },
            Lex::Line => {
                if c == '\n' {
                    m = Lex::Plain;
                }
            },
            Lex::Block(last) => {
                if last == '*' && c == '/' {
                    m = Lex::Plain;
                } else {
                    m = Lex::Block(c);
                }
            },
            Lex::Plain => {
                if c == '/' && i + 1 < v.len() && v[i + 1] == '/' {
                    m = Lex::Line;
                    read = 2;
                } else if c == '/' && i + 1 < v.len() && v[i + 1] == '*' {
                    m = Lex::Block('\0');
                    read = 2;
                } else {
                    kept = true;
                    m = char_step(m, c);
                }
            },
        }
        if kept && !is_whitespace(c) {
            best = i + 1;
        }
        i = i + read;
        proof {
            assert(lex_step(s, m0).1 == read);
            assert(lex_step(s, m0).2 == m);
            assert(s.skip(read as int) =~= v@.skip(i as int));
            assert(counts(s, m0) == (kept && !whitespace(c)));
        }
    }
    assert(v@.skip(i as int) =~= seq![]);
    best
}

fn char_step(m: Lex, c: char) -> (r: Lex)
    ensures
        r == after_char(m, c),
{
    match m {
        Lex::Text(true) => Lex::Text(false),
        Lex::Text(false) => {
            if c == '\\' {
                Lex::Text(true)
            } else if c == '"' {
                Lex::Plain
            } else {
                Lex::Text(false)
            }
        },
        _ => {
            if c == '"' {
                Lex::Text(false)
            } else {
                Lex::Plain
            }
        },
    }
}

fn push_blanks(out: &mut Vec<char>, n: usize)
    ensures
        final(out)@ == old(out)@ + blanks(n as nat),
{
    let ghost before = out@;
    let mut i: usize = 0;
    assert(out@ =~= before + blanks(0));
    while i < n
        invariant
            i <= n,
            out@ == before + blanks(i as nat),
        decreases n - i,
    {
        out.push(' ');
        i = i + 1;
        assert(out@ =~= before + blanks(i as nat));
    }
}

/// Takes comments and trailing commas out of a text.
pub fn strip_jsonc(text: &str) -> (r: String)
    ensures
        r@ == plain_json(text@),
{
    let v = chars_of(text);
    let mut out: Vec<char> = Vec::new();
    let mut m = Lex::Plain;
    let mut i: usize = 0;
    proof {
        assert(v@.skip(0) =~= v@);
        assert(out@ + uncommented(v@, m) =~= uncommented(v@, m));
    }
    while i < v.len()
        invariant
            i <= v@.len(),
            v@ == text@,
            out@ + uncommented(v@.skip(i as int), m) == uncommented(text@, Lex::Plain),
        decreases v.len() - i,
    {
        let c = v[i];
        let ghost out0 = out@;
        let ghost s = v@.skip(i as int);
        let ghost m0 = m;
        proof {
            lemma_skip_next(v@, i as int);
            if i + 1 < v.len() {
                assert(s[1] == v@[i + 1]);
                assert(s.skip(2) =~= v@.skip(i + 2));
            }
        }
        match m {
            Lex::Text(_) => {
                out.push(c);
                m = char_step(m, c);
                i = i + 1;
            },
            Lex::Line => {
                if c == '\n' {
                    out.push(c);
                    m = Lex::Plain;
                } else {
                    push_blanks(&mut out, utf8_width(c));
                }
                i = i + 1;
            },
            Lex::Block(last) => {
                if c == '\n' {
                    out.push(c);
                } else {
                    push_blanks(&mut out, utf8_width(c));
                }
                if last == '*' && c == '/' {
                    m = Lex::Plain;
                } else {
                    m = Lex::Block(c);
                }
                i = i + 1;
            },
            Lex::Plain => {
                if c == '/' && i + 1 < v.len() && v[i + 1] == '/' {
                    push_blanks(&mut out, 2);
                    m = Lex::Line;
                    i = i + 2;
                } else if c == '/' && i + 1 < v.len() && v[i + 1] == '*' {
                    push_blanks(&mut out, 2);
                    m = Lex::Block('\0');
                    i = i + 2;
                } else {
                    out.push(c);
                    m = char_step(m, c);
                    i = i + 1;
                }
            },
        }
        proof {
            let shown = out@.skip(out0.len() as int);
            assert(out@ =~= out0 + shown);
            assert(shown =~= seq![c] || shown =~= blanks(byte_len(c)) || shown =~= blanks(2));
            assert(shown == lex_step(s, m0).0);
            assert(s.skip(lex_step(s, m0).1) =~= v@.skip(i as int));
            assert(out@ + uncommented(v@.skip(i as int), m) =~= out0 + uncommented(s, m0));
        }
    }
    proof {
        assert(v@.skip(i as int) =~= seq![]);
        assert(out@ + uncommented(v@.skip(i as int), m) =~= out@);
    }
    drop_trailing_commas(&out)
}

/// The first character from `from` on that is no white space.
fn solid(v: &Vec<char>, from: usize) -> (r: Option<char>)
    requires
        from <= v@.len(),
    ensures
        r == solid_from(v@, from as int),
{
    let mut i: usize = from;
    while i < v.len()
        invariant
            i <= v@.len(),
            solid_from(v@, from as int) == solid_from(v@, i as int),
        decreases v.len() - i,
    {
        if !is_whitespace(v[i]) {
            return Some(v[i]);
        }
        i = i + 1;
    }
    None
}

/// Blanks out each comma that is followed by a closing bracket only.
fn drop_trailing_commas(v: &Vec<char>) -> (r: String)
    ensures
        r@ == without_commas(v@),
{
    let mut out: Vec<char> = Vec::new();
    let mut m = Lex::Plain;
    let mut i: usize = 0;
    while i < v.len()
        invariant
            i <= v@.len(),
            m == standing(v@, i as int),
            out@ == without_commas(v@).take(i as int),
        decreases v.len() - i,
    {
        let c = v[i];
        let mut shown = c;
        if c == ',' && m == Lex::Plain {
            match solid(v, i + 1) {
                Some(n) => {
                    if n == '}' || n == ']' {
                        shown = ' ';
                    }
                },
                None => {},
            }
        }
        out.push(shown);
        m = char_step(m, c);
        i = i + 1;
        proof {
            crate::text::lemma_take_next(without_commas(v@), i - 1);
        }
    }
    assert(without_commas(v@).take(i as int) =~= without_commas(v@));
    text_of(&out)
}

} // verus!
