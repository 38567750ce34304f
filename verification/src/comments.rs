//! What a comment and a comma are taken for.
use vstd::prelude::*;
use crate::jsonc::{
    blanks, byte_size, ended, lemma_read_on, solid_from, standing, uncommented, without_commas, Lex,
};
use crate::text::whitespace;

verus! {

/// Whether a text holds neither a quote nor a stroke.
pub open spec fn bare(a: Seq<char>) -> bool {
    forall|i: int| 0 <= i < a.len() ==> #[trigger] a[i] != '"' && a[i] != '/'
}

/// Whether a text can stand between quotes: it has no quote and no backslash but behind a
/// backslash.
pub open spec fn quotable(t: Seq<char>) -> bool
    decreases t.len(),
{
    if t.len() == 0 {
        true
    } else if t[0] == '\\' {
        t.len() > 1 && quotable(t.skip(2))
    } else {
        t[0] != '"' && quotable(t.skip(1))
    }
}

proof fn lemma_bare(a: Seq<char>)
    requires
        bare(a),
    ensures
        uncommented(a, Lex::Plain) == a,
        ended(a, Lex::Plain) == Lex::Plain,
    decreases a.len(),
{
    if a.len() > 0 {
        let b = a.skip(1);
        assert(a[0] != '"' && a[0] != '/');
        assert(bare(b)) by {
            assert forall|i: int| 0 <= i < b.len() implies #[trigger] b[i] != '"' && b[i] != '/' by {
                assert(a[i + 1] != '"');
            }
        }
        lemma_bare(b);
        assert(seq![a[0]] + b =~= a);
    }
}

proof fn lemma_in_quotes(t: Seq<char>)
    requires
        quotable(t),
    ensures
        uncommented(t, Lex::Text(false)) == t,
        ended(t, Lex::Text(false)) == Lex::Text(false),
    decreases t.len(),
{
    if t.len() > 0 {
        if t[0] == '\\' {
            let u = t.skip(1);
            assert(u.skip(1) =~= t.skip(2));
            lemma_in_quotes(t.skip(2));
            assert(u[0] == t[1]);
            assert(seq![u[0]] + t.skip(2) =~= u);
            assert(uncommented(u, Lex::Text(true)) == seq![u[0]] + uncommented(
                t.skip(2),
                Lex::Text(false),
            ));
            assert(ended(u, Lex::Text(true)) == Lex::Text(false));
            assert(seq![t[0]] + u =~= t);
        } else {
            lemma_in_quotes(t.skip(1));
            assert(seq![t[0]] + t.skip(1) =~= t);
        }
    }
}

/// What stands between quotes is no comment, whatever it looks like.
pub proof fn law_quoted_text_is_no_comment(a: Seq<char>, t: Seq<char>, b: Seq<char>)
    requires
        bare(a),
        quotable(t),
    ensures
        uncommented(a + seq!['"'] + t + seq!['"'] + b, Lex::Plain) == a + seq!['"'] + t + seq!['"']
            + uncommented(b, Lex::Plain),
{
    let q = seq!['"'];
    let none: Seq<char> = seq![];
    lemma_bare(a);
    lemma_in_quotes(t);
    assert(q.skip(1) =~= none);
    assert(q[0] == '"');
    assert(uncommented(none, Lex::Text(false)) =~= none);
    assert(uncommented(none, Lex::Plain) =~= none);
    assert(uncommented(q, Lex::Plain) =~= q);
    assert(ended(q, Lex::Plain) == Lex::Text(false)) by {
        assert(ended(none, Lex::Text(false)) == Lex::Text(false));
    }
    assert(uncommented(q, Lex::Text(false)) =~= q);
    assert(ended(q, Lex::Text(false)) == Lex::Plain) by {
        assert(ended(none, Lex::Plain) == Lex::Plain);
    }
    lemma_read_on(a, q, Lex::Plain);
    lemma_read_on(a + q, t, Lex::Plain);
    lemma_read_on(a + q + t, q, Lex::Plain);
    assert((a + q + t + q).last() == '"');
    lemma_read_on(a + q + t + q, b, Lex::Plain);
}

proof fn lemma_line(x: Seq<char>)
    requires
        forall|i: int| 0 <= i < x.len() ==> #[trigger] x[i] != '\n',
    ensures
        uncommented(x, Lex::Line) == blanks(byte_size(x)),
        ended(x, Lex::Line) == Lex::Line,
    decreases x.len(),
{
    if x.len() > 0 {
        let y = x.skip(1);
        assert(x[0] != '\n');
        assert forall|i: int| 0 <= i < y.len() implies #[trigger] y[i] != '\n' by {
            assert(x[i + 1] != '\n');
        }
        lemma_line(y);
        assert(uncommented(x, Lex::Line) =~= blanks(byte_size(x)));
    } else {
        assert(uncommented(x, Lex::Line) =~= blanks(byte_size(x)));
    }
}

/// Two strokes take the rest of their line out, and what is on the next line stays.
pub proof fn law_a_comment_ends_with_its_line(a: Seq<char>, x: Seq<char>, b: Seq<char>)
    requires
        bare(a),
        forall|i: int| 0 <= i < x.len() ==> #[trigger] x[i] != '\n',
    ensures
        uncommented(a + seq!['/', '/'] + x + seq!['\n'] + b, Lex::Plain) == a + blanks(2) + blanks(
            byte_size(x),
        ) + seq!['\n'] + uncommented(b, Lex::Plain),
{
    let c = seq!['/', '/'];
    let n = seq!['\n'];
    let none: Seq<char> = seq![];
    lemma_bare(a);
    lemma_line(x);
    assert(c.skip(2) =~= none);
    assert(uncommented(none, Lex::Line) =~= none);
    assert(uncommented(none, Lex::Plain) =~= none);
    assert(ended(none, Lex::Line) == Lex::Line);
    assert(ended(none, Lex::Plain) == Lex::Plain);
    assert(uncommented(c, Lex::Plain) =~= blanks(2));
    assert(ended(c, Lex::Plain) == Lex::Line);
    assert(n.skip(1) =~= none);
    assert(uncommented(n, Lex::Line) =~= n);
    assert(ended(n, Lex::Line) == Lex::Plain);
    if a.len() > 0 {
        assert(a[a.len() - 1] != '/');
    }
    lemma_read_on(a, c, Lex::Plain);
    lemma_read_on(a + c, x, Lex::Plain);
    lemma_read_on(a + c + x, n, Lex::Plain);
    assert((a + c + x + n).last() == '\n');
    lemma_read_on(a + c + x + n, b, Lex::Plain);
}

proof fn lemma_block(x: Seq<char>, last: char)
    requires
        forall|i: int| 0 <= i < x.len() ==> #[trigger] x[i] != '/' && x[i] != '\n',
    ensures
        uncommented(x, Lex::Block(last)) == blanks(byte_size(x)),
        ended(x, Lex::Block(last)) is Block,
    decreases x.len(),
{
    if x.len() > 0 {
        let y = x.skip(1);
        assert(x[0] != '/' && x[0] != '\n');
        assert forall|i: int| 0 <= i < y.len() implies #[trigger] y[i] != '/' && y[i] != '\n' by {
            assert(x[i + 1] != '/');
        }
        lemma_block(y, x[0]);
        assert(uncommented(x, Lex::Block(last)) =~= blanks(byte_size(x)));
    } else {
        assert(uncommented(x, Lex::Block(last)) =~= blanks(byte_size(x)));
    }
}

/// A comment between `/*` and `*/` is taken out, quotes and commas and all, and what follows
/// it stays.
pub proof fn law_a_comment_ends_with_its_sign(a: Seq<char>, x: Seq<char>, b: Seq<char>)
    requires
        bare(a),
        forall|i: int| 0 <= i < x.len() ==> #[trigger] x[i] != '/' && x[i] != '\n',
    ensures
        uncommented(a + seq!['/', '*'] + x + seq!['*', '/'] + b, Lex::Plain) == a + blanks(2)
            + blanks(byte_size(x)) + blanks(2) + uncommented(b, Lex::Plain),
{
    let c = seq!['/', '*'];
    let e = seq!['*', '/'];
    let none: Seq<char> = seq![];
    lemma_bare(a);
    lemma_block(x, '\0');
    assert(c.skip(2) =~= none);
    assert(uncommented(none, Lex::Block('\0')) =~= none);
    assert(uncommented(none, Lex::Plain) =~= none);
    assert(ended(none, Lex::Block('\0')) == Lex::Block('\0'));
    assert(ended(none, Lex::Plain) == Lex::Plain);
    assert(uncommented(c, Lex::Plain) =~= blanks(2));
    assert(ended(c, Lex::Plain) == Lex::Block('\0'));
    let m = ended(x, Lex::Block('\0'));
    let f = seq!['/'];
    assert(e.skip(1) =~= f);
    assert(f.skip(1) =~= none);
    assert(uncommented(f, Lex::Block('*')) =~= blanks(1));
    assert(ended(f, Lex::Block('*')) == Lex::Plain);
    assert(uncommented(e, m) =~= blanks(2));
    assert(ended(e, m) == Lex::Plain);
    if a.len() > 0 {
        assert(a[a.len() - 1] != '/');
    }
    lemma_read_on(a, c, Lex::Plain);
    lemma_read_on(a + c, x, Lex::Plain);
    lemma_read_on(a + c + x, e, Lex::Plain);
    let all = a + c + x + e;
    assert(ended(all, Lex::Plain) == Lex::Plain);
    lemma_after_block(a + c + x, b, m);
    assert(all + b =~= (a + c + x) + (e + b));
    let eb = e + b;
    assert(eb[0] == '*' && eb[1] == '/');
    lemma_read_on(a + c + x, eb, Lex::Plain);
}

proof fn lemma_after_block(a: Seq<char>, b: Seq<char>, m: Lex)
    requires
        m is Block,
    ensures
        uncommented(seq!['*', '/'] + b, m) == blanks(2) + uncommented(b, Lex::Plain),
{
    let eb = seq!['*', '/'] + b;
    let fb = eb.skip(1);
    assert(eb[0] == '*' && fb[0] == '/');
    assert(fb.skip(1) =~= b);
    assert(uncommented(fb, Lex::Block('*')) =~= blanks(1) + uncommented(b, Lex::Plain));
    assert(blanks(1) + (blanks(1) + uncommented(b, Lex::Plain)) =~= blanks(2) + uncommented(
        b,
        Lex::Plain,
    ));
}

proof fn lemma_standing_bare(s: Seq<char>, i: int)
    requires
        0 <= i <= s.len(),
        forall|j: int| 0 <= j < i ==> #[trigger] s[j] != '"',
    ensures
        standing(s, i) == Lex::Plain,
    decreases i,
{
    if i > 0 {
        assert(s[i - 1] != '"');
        lemma_standing_bare(s, i - 1);
    }
}

proof fn lemma_solid(s: Seq<char>, i: int, j: int)
    requires
        0 <= i <= j < s.len(),
        forall|k: int| i <= k < j ==> whitespace(#[trigger] s[k]),
        !whitespace(s[j]),
    ensures
        solid_from(s, i) == Some(s[j]),
    decreases j - i,
{
    if i < j {
        assert(whitespace(s[i]));
        lemma_solid(s, i + 1, j);
    }
}

/// A comma outside of quotes goes where nothing but white space stands between it and a
/// closing bracket, and stays where something else follows; all other characters stay.
pub proof fn law_commas_before_brackets_go(s: Seq<char>, i: int, j: int)
    requires
        0 <= i < j < s.len(),
        forall|k: int| 0 <= k < i ==> #[trigger] s[k] != '"',
        forall|k: int| i < k < j ==> whitespace(#[trigger] s[k]),
        !whitespace(s[j]),
    ensures
        without_commas(s).len() == s.len(),
        s[i] == ',' && (s[j] == '}' || s[j] == ']') ==> without_commas(s)[i] == ' ',
        s[i] == ',' && s[j] != '}' && s[j] != ']' ==> without_commas(s)[i] == ',',
        s[i] != ',' ==> without_commas(s)[i] == s[i],
{
    lemma_standing_bare(s, i);
    lemma_solid(s, i + 1, j);
}

proof fn lemma_standing_in(s: Seq<char>, p: int, i: int)
    requires
        0 <= p < i <= s.len(),
        s[p] == '"',
        forall|k: int| 0 <= k < p ==> #[trigger] s[k] != '"',
        forall|k: int| p < k < i ==> #[trigger] s[k] != '"' && s[k] != '\\',
    ensures
        standing(s, i) == Lex::Text(false),
    decreases i,
{
    if i == p + 1 {
        lemma_standing_bare(s, p);
    } else {
        assert(s[i - 1] != '"');
        lemma_standing_in(s, p, i - 1);
    }
}

/// A comma between quotes stays, whatever follows it.
pub proof fn law_quoted_commas_stay(s: Seq<char>, p: int, i: int)
    requires
        0 <= p < i < s.len(),
        s[p] == '"',
        forall|k: int| 0 <= k < p ==> #[trigger] s[k] != '"',
        forall|k: int| p < k < i ==> #[trigger] s[k] != '"' && s[k] != '\\',
    ensures
        without_commas(s)[i] == s[i],
{
    lemma_standing_in(s, p, i);
}

} // verus!
