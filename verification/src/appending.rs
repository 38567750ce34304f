//! A new entry in a file of snippets is read, and so is all that was there.
use vstd::prelude::*;
use vstd::string::*;
use crate::jsonc::{
    after_char, blank, blanks, ended, lemma_read_on, lemma_solid_end, lex_step, plain_json,
    solid_end, solid_from, standing, uncommented, without_commas, Lex,
};
use crate::snippet::{
    appendable, bare, base_name, blank_entry, closed_off, entries_read, escaped, extended,
    extended_by, free_number, fresh_name, lemma_decimal_value, lemma_replaced_add, line_feeds,
    lone_comma, made_of, member_text, separator, template_added, template_base,
};
use crate::text::{
    decimal, digit, first_at, last_at, lemma_first_at, lemma_first_of_none, lemma_first_stays,
    lemma_is_first_at, replaced, split, swap, trim_end, whitespace,
};

verus! {

/// Whether a text that is read from the standing `m` holds no comment, and leaves the reader
/// at `n`.
spec fn reads(s: Seq<char>, m: Lex, n: Lex) -> bool {
    uncommented(s, m) == s && ended(s, m) == n
}

proof fn lemma_reads_on(a: Seq<char>, b: Seq<char>, m: Lex, n: Lex, k: Lex)
    requires
        reads(a, m, n),
        reads(b, n, k),
        b.len() > 0 ==> b[0] != '/' && b[0] != '*' || !(n is Plain),
    ensures
        reads(a + b, m, k),
{
    lemma_read_on(a, b, m);
}

/// Where a quote leads.
spec fn turned(m: Lex) -> Lex {
    if m is Plain {
        Lex::Text(false)
    } else {
        Lex::Plain
    }
}

spec fn quiet_from(s: Seq<char>, i: int) -> bool {
    forall|j: int| i <= j < s.len() ==> #[trigger] s[j] != '"' && s[j] != '\\' && s[j] != '/'
}

proof fn lemma_quiet_text(s: Seq<char>, m: Lex)
    requires
        m == Lex::Plain || m == Lex::Text(false),
        quiet_from(s, 0),
    ensures
        reads(s, m, m),
    decreases s.len(),
{
    if s.len() > 0 {
        assert(s[0] != '"' && s[0] != '\\' && s[0] != '/');
        let t = s.skip(1);
        assert forall|j: int| 0 <= j < t.len() implies #[trigger] t[j] != '"' && t[j] != '\\'
            && t[j] != '/' by {
            assert(s[j + 1] != '"');
        }
        lemma_quiet_text(t, m);
        assert(seq![s[0]] + t =~= s);
    } else {
        assert(s =~= seq![]);
    }
}

/// A quote and what follows it up to the next one.
proof fn lemma_quoted_piece(s: Seq<char>, m: Lex)
    requires
        m == Lex::Plain || m == Lex::Text(false),
        s.len() > 0,
        s[0] == '"',
        quiet_from(s, 1),
    ensures
        reads(s, m, turned(m)),
{
    let t = s.skip(1);
    assert forall|j: int| 0 <= j < t.len() implies #[trigger] t[j] != '"' && t[j] != '\\' && t[j]
        != '/' by {
        assert(s[j + 1] != '"');
    }
    lemma_quiet_text(t, turned(m));
    assert(seq![s[0]] + t =~= s);
}

proof fn lemma_piece_after(a: Seq<char>, b: Seq<char>, m: Lex, n: Lex)
    requires
        n == Lex::Plain || n == Lex::Text(false),
        reads(a, m, n),
        b.len() > 0,
        b[0] == '"',
        quiet_from(b, 1),
    ensures
        reads(a + b, m, turned(n)),
{
    lemma_quoted_piece(b, n);
    lemma_reads_on(a, b, m, n, turned(n));
}

proof fn lemma_replaced_one(x: char, c: char, with: Seq<char>)
    ensures
        replaced(seq![x], c, with) == (if x == c {
            with
        } else {
            seq![x]
        }),
{
    let none: Seq<char> = seq![];
    let f = swap(c, with);
    assert(seq![x] =~= none.push(x));
    none.lemma_flat_map_push(f, x);
    assert(none.flat_map(f) =~= seq![]);
    assert(seq![x].flat_map(f) =~= f(x));
}

proof fn lemma_escaped_one(x: char)
    ensures
        reads(escaped(seq![x]), Lex::Text(false), Lex::Text(false)),
{
    reveal_strlit("\\\\");
    reveal_strlit("\\\"");
    reveal_with_fuel(uncommented, 3);
    reveal_with_fuel(ended, 3);
    let back = "\\\\"@;
    let quote = "\\\""@;
    lemma_replaced_one(x, '\\', back);
    lemma_replaced_one(x, '"', quote);
    lemma_replaced_one('\\', '"', quote);
    let e = escaped(seq![x]);
    if x == '\\' {
        assert(back =~= seq!['\\'] + seq!['\\']);
        lemma_replaced_add(seq!['\\'], seq!['\\'], '"', quote);
        assert(e =~= seq!['\\', '\\']);
        assert(e.skip(1) =~= seq!['\\']);
        assert(e.skip(1).skip(1) =~= seq![]);
        assert(uncommented(e, Lex::Text(false)) =~= e);
    } else if x == '"' {
        assert(e =~= seq!['\\', '"']);
        assert(e.skip(1) =~= seq!['"']);
        assert(e.skip(1).skip(1) =~= seq![]);
        assert(uncommented(e, Lex::Text(false)) =~= e);
    } else {
        assert(e =~= seq![x]);
        assert(e.skip(1) =~= seq![]);
        assert(uncommented(e, Lex::Text(false)) =~= e);
    }
}

proof fn lemma_escaped_add(a: Seq<char>, b: Seq<char>)
    ensures
        escaped(a + b) == escaped(a) + escaped(b),
{
    lemma_replaced_add(a, b, '\\', "\\\\"@);
    lemma_replaced_add(
        replaced(a, '\\', "\\\\"@),
        replaced(b, '\\', "\\\\"@),
        '"',
        "\\\""@,
    );
}

/// Whatever stands in a string, its written form does not end the string.
proof fn lemma_escaped_reads(s: Seq<char>)
    ensures
        reads(escaped(s), Lex::Text(false), Lex::Text(false)),
    decreases s.len(),
{
    let m = Lex::Text(false);
    if s.len() == 0 {
        assert(s =~= seq![]);
        assert(s.flat_map(swap('\\', "\\\\"@)) =~= seq![]);
        assert(s.flat_map(swap('"', "\\\""@)) =~= seq![]);
        assert(escaped(s) =~= seq![]);
    } else {
        let t = s.drop_last();
        let x = seq![s.last()];
        lemma_escaped_reads(t);
        lemma_escaped_one(s.last());
        assert(s =~= t + x);
        lemma_escaped_add(t, x);
        lemma_reads_on(escaped(t), escaped(x), m, m, m);
    }
}

proof fn lemma_entry_opens()
    ensures
        reads("\n    \""@, Lex::Plain, Lex::Text(false)),
{
    reveal_strlit("\n    \"");
    reveal_strlit("\n    ");
    reveal_strlit("\"");
    let a = "\n    "@;
    let q = "\""@;
    assert("\n    \""@ =~= a + q);
    lemma_quiet_text(a, Lex::Plain);
    lemma_piece_after(a, q, Lex::Plain, Lex::Plain);
}

proof fn lemma_entry_goes_on()
    ensures
        reads("\": {\n        \"prefix\": \""@, Lex::Text(false), Lex::Text(false)),
{
    let text = Lex::Text(false);
    reveal_strlit("\": {\n        \"prefix\": \"");
    reveal_strlit("\": {\n        ");
    reveal_strlit("\"prefix");
    reveal_strlit("\": ");
    reveal_strlit("\"");
    let a = "\": {\n        "@;
    let b = "\"prefix"@;
    let c = "\": "@;
    let d = "\""@;
    assert("\": {\n        \"prefix\": \""@ =~= a + b + c + d);
    lemma_quoted_piece(a, text);
    lemma_piece_after(a, b, text, Lex::Plain);
    lemma_piece_after(a + b, c, text, text);
    lemma_piece_after(a + b + c, d, text, Lex::Plain);
}

proof fn lemma_body_reads()
    ensures
        reads("\",\n        \"body\": [\"\"],\n        "@, Lex::Text(false), Lex::Plain),
{
    let text = Lex::Text(false);
    reveal_strlit("\",\n        \"body\": [\"\"],\n        ");
    reveal_strlit("\",\n        ");
    reveal_strlit("\"body");
    reveal_strlit("\": [");
    reveal_strlit("\"");
    reveal_strlit("\"],\n        ");
    let a = "\",\n        "@;
    let b = "\"body"@;
    let c = "\": ["@;
    let d = "\""@;
    let e = "\"],\n        "@;
    assert("\",\n        \"body\": [\"\"],\n        "@ =~= a + b + c + d + e);
    lemma_quoted_piece(a, text);
    lemma_piece_after(a, b, text, Lex::Plain);
    lemma_piece_after(a + b, c, text, text);
    lemma_piece_after(a + b + c, d, text, Lex::Plain);
    lemma_piece_after(a + b + c + d, e, text, text);
}

proof fn lemma_note_reads()
    ensures
        reads("\"description\": \"\"\n    },\n"@, Lex::Plain, Lex::Plain),
{
    let text = Lex::Text(false);
    reveal_strlit("\"description\": \"\"\n    },\n");
    reveal_strlit("\"description");
    reveal_strlit("\": ");
    reveal_strlit("\"");
    reveal_strlit("\"\n    },\n");
    let a = "\"description"@;
    let b = "\": "@;
    let c = "\""@;
    let d = "\"\n    },\n"@;
    assert("\"description\": \"\"\n    },\n"@ =~= a + b + c + d);
    lemma_quoted_piece(a, Lex::Plain);
    lemma_piece_after(a, b, Lex::Plain, text);
    lemma_piece_after(a + b, c, Lex::Plain, Lex::Plain);
    lemma_piece_after(a + b + c, d, Lex::Plain, text);
}

proof fn lemma_entry_ends()
    ensures
        reads(
            "\",\n        \"body\": [\"\"],\n        \"description\": \"\"\n    },\n"@,
            Lex::Text(false),
            Lex::Plain,
        ),
{
    reveal_strlit("\",\n        \"body\": [\"\"],\n        \"description\": \"\"\n    },\n");
    reveal_strlit("\",\n        \"body\": [\"\"],\n        ");
    reveal_strlit("\"description\": \"\"\n    },\n");
    let a = "\",\n        \"body\": [\"\"],\n        "@;
    let b = "\"description\": \"\"\n    },\n"@;
    lemma_body_reads();
    lemma_note_reads();
    lemma_reads_on(a, b, Lex::Text(false), Lex::Plain, Lex::Plain);
    assert("\",\n        \"body\": [\"\"],\n        \"description\": \"\"\n    },\n"@ =~= a + b);
}

/// An empty entry is read as it is written, also behind a comment that ends with its line.
proof fn lemma_entry_reads(name: Seq<char>, prefix: Seq<char>, m: Lex)
    requires
        m is Plain || m is Line,
    ensures
        reads(blank_entry(name, prefix), m, Lex::Plain),
        blank_entry(name, prefix).len() > 0,
        blank_entry(name, prefix)[0] == '\n',
{
    let text = Lex::Text(false);
    let a = "\n    \""@;
    let b = escaped(name);
    let c = "\": {\n        \"prefix\": \""@;
    let d = escaped(prefix);
    let e = "\",\n        \"body\": [\"\"],\n        \"description\": \"\"\n    },\n"@;
    let all = blank_entry(name, prefix);
    lemma_entry_opens();
    lemma_escaped_reads(name);
    lemma_entry_goes_on();
    lemma_escaped_reads(prefix);
    lemma_entry_ends();
    lemma_reads_on(a, b, Lex::Plain, text, text);
    lemma_reads_on(a + b, c, Lex::Plain, text, text);
    lemma_reads_on(a + b + c, d, Lex::Plain, text, text);
    lemma_reads_on(a + b + c + d, e, Lex::Plain, text, Lex::Plain);
    assert(all =~= a + b + c + d + e);
    reveal_strlit("\n    \"");
    assert(all[0] == a[0]);
    assert(lex_step(all, m) == lex_step(all, Lex::Plain));
}

proof fn lemma_trimmed(s: Seq<char>)
    ensures
        trim_end(s).len() <= s.len(),
        trim_end(s) == s.take(trim_end(s).len() as int),
        blank(s.skip(trim_end(s).len() as int)),
    decreases s.len(),
{
    if s.len() > 0 && whitespace(s.last()) {
        let t = s.drop_last();
        lemma_trimmed(t);
        let n = trim_end(t).len() as int;
        assert(t.take(n) =~= s.take(n));
        let rest = s.skip(n);
        assert forall|i: int| 0 <= i < rest.len() implies whitespace(#[trigger] rest[i]) by {
            if i < t.skip(n).len() {
                assert(t.skip(n)[i] == rest[i]);
            }
        }
    } else {
        assert(s.take(s.len() as int) =~= s);
    }
}

/// White space ends neither a string nor a block comment.
proof fn lemma_blank_reads(s: Seq<char>, m: Lex)
    requires
        blank(s),
        ended(s, m) is Plain,
    ensures
        m is Plain || m is Line,
        blank(uncommented(s, m)),
    decreases s.len(),
{
    if s.len() > 0 {
        let step = lex_step(s, m);
        assert(whitespace(s[0]));
        let rest = s.skip(1);
        assert forall|i: int| 0 <= i < rest.len() implies whitespace(#[trigger] rest[i]) by {
            assert(whitespace(s[i + 1]));
        }
        assert(step.1 == 1);
        lemma_blank_reads(s.skip(1), step.2);
        let a = step.0;
        let b = uncommented(s.skip(1), step.2);
        lemma_blank_both(a, b);
    }
}

proof fn lemma_blank_both(a: Seq<char>, b: Seq<char>)
    requires
        blank(a),
        blank(b),
    ensures
        blank(a + b),
{
    assert forall|i: int| 0 <= i < (a + b).len() implies whitespace(#[trigger] (a + b)[i]) by {
        if i < a.len() {
            assert((a + b)[i] == a[i]);
        } else {
            assert((a + b)[i] == b[i - a.len()]);
        }
    }
}

proof fn lemma_last_found(s: Seq<char>, c: char)
    ensures
        last_at(s, c) matches Some(i) ==> i < s.len() && s[i as int] == c,
    decreases s.len(),
{
    if s.len() > 0 && s.last() != c {
        lemma_last_found(s.drop_last(), c);
    }
}

/// What the entries lack to be followed by another one.
pub open spec fn comma_missing(entries: Seq<char>) -> Seq<char> {
    if entries.len() > 0 && entries.last() != ',' && entries.last() != '{' {
        ","@
    } else {
        seq![]
    }
}

/// A file and the same file with a new entry, as they are read: the entries, white space and
/// what closes the file; and the entries, a comma where they lack one, some of that white
/// space, the new entry and what closes the file.
proof fn lemma_read_parts(text: Seq<char>, prefix: Seq<char>, close: nat) -> (r: (
    Seq<char>,
    Seq<char>,
))
    requires
        last_at(template_base(text), '}') == Some(close),
        ended(template_base(text).take(close as int), Lex::Plain) is Plain,
    ensures
        ({
            let base = template_base(text);
            let entries = entries_read(base, close as int);
            let entry = blank_entry(fresh_name(base, prefix), prefix);
            let rest = uncommented(base.skip(close as int), Lex::Plain);
            &&& blank(r.0)
            &&& blank(r.1)
            &&& uncommented(base, Lex::Plain) == entries + (r.0 + r.1) + rest
            &&& uncommented(template_added(text, prefix).0, Lex::Plain) == entries
                + comma_missing(entries) + r.0 + entry + rest
            &&& stands(entries, Lex::Plain) == Lex::Plain
            &&& entries.len() > 0 ==> !whitespace(entries.last())
            &&& close < base.len()
            &&& base[close as int] == '}'
        }),
{
    let base = template_base(text);
    let cl = close as int;
    let plain = Lex::Plain;
    lemma_last_found(base, '}');
    let head = base.take(cl);
    let tail = base.skip(cl);
    lemma_trimmed(head);
    let t = trim_end(head);
    let white = head.skip(t.len() as int);
    assert(head =~= t + white);
    if white.len() > 0 {
        assert(whitespace(white[0]));
    }
    lemma_read_on(t, white, plain);
    lemma_blank_reads(white, ended(t, plain));
    lemma_solid_end(t, plain);
    let e = solid_end(t, plain);
    let a = t.take(e);
    let b = t.skip(e);
    assert(t =~= a + b);
    assert(ended(a, plain) is Plain) by {
        if e == 0 {
            assert(a =~= seq![]);
        }
    }
    let entries = uncommented(a, plain);
    let gap = uncommented(b, plain);
    if e == 0 {
        assert(a =~= seq![]);
    } else {
        assert(a.last() == t[e - 1]);
    }
    assert(ended(a, plain) == plain);
    lemma_stood_uncommented(a, plain);
    assert(uncommented(t, plain) == entries + gap) by {
        lemma_split_read(t, e);
    }
    lemma_read_on(head, tail, plain);
    assert(base =~= head + tail);
    assert(tail[0] == '}');
    let more = uncommented(white, ended(t, plain));
    let rest = uncommented(tail, plain);
    assert(uncommented(base, plain) =~= entries + (gap + more) + rest);
    let entry = blank_entry(fresh_name(base, prefix), prefix);
    lemma_entry_reads(fresh_name(base, prefix), prefix, ended(t, plain));
    let comma = comma_missing(entries);
    let closed = closed_off(t);
    assert(uncommented(closed, plain) == entries + comma + gap && ended(closed, plain) == ended(
        t,
        plain,
    )) by {
        if comma.len() > 0 {
            reveal_strlit(",");
            let c = ","@;
            lemma_quiet_text(c, plain);
            assert(closed =~= a + (c + b));
            lemma_read_on(a, c + b, plain);
            lemma_read_on(c, b, plain);
            assert(uncommented(closed, plain) =~= entries + comma + gap);
        } else {
            reveal_strlit(",");
            assert(closed == t);
            assert(entries + comma =~= entries);
        }
    }
    lemma_read_on(closed, entry, plain);
    let part = closed + entry;
    lemma_read_on(part, tail, plain);
    assert(template_added(text, prefix).0 == part + tail);
    assert(uncommented(part + tail, plain) =~= entries + comma + gap + entry + rest);
    (gap, more)
}

/// A new entry is read behind all that was there, whatever comments stand between: the file
/// is read as the entries that were in it, white space and what closes it; then it is read as
/// the same entries, a comma where they lack one, white space, the new entry and what closes
/// the file. The last closing bracket has to stand outside comments and strings.
pub proof fn law_a_new_entry_is_read(text: Seq<char>, prefix: Seq<char>, close: nat)
    requires
        last_at(template_base(text), '}') == Some(close),
        ended(template_base(text).take(close as int), Lex::Plain) is Plain,
    ensures
        ({
            let base = template_base(text);
            let entries = entries_read(base, close as int);
            let entry = blank_entry(fresh_name(base, prefix), prefix);
            let rest = uncommented(base.skip(close as int), Lex::Plain);
            &&& exists|gap: Seq<char>|
                blank(gap) && uncommented(base, Lex::Plain) == #[trigger] (entries + gap) + rest
            &&& exists|gap: Seq<char>|
                blank(gap) && uncommented(template_added(text, prefix).0, Lex::Plain)
                    == #[trigger] (entries + comma_missing(entries) + gap) + entry + rest
        }),
{
    let (gap, more) = lemma_read_parts(text, prefix, close);
    let wide = gap + more;
    lemma_blank_both(gap, more);
    let base = template_base(text);
    let entries = entries_read(base, close as int);
    let rest = uncommented(base.skip(close as int), Lex::Plain);
    let entry = blank_entry(fresh_name(base, prefix), prefix);
    assert(blank(wide) && uncommented(base, Lex::Plain) == (entries + wide) + rest);
    assert(blank(gap) && uncommented(template_added(text, prefix).0, Lex::Plain) == (entries
        + comma_missing(entries) + gap) + entry + rest);
}

/// Where a reader that tells only strings apart stands after the first `i` characters.
spec fn stood(s: Seq<char>, m: Lex, i: int) -> Lex
    decreases i,
{
    if i <= 0 {
        m
    } else {
        after_char(stood(s, m, i - 1), s[i - 1])
    }
}

/// Where such a reader stands behind a text.
spec fn stands(s: Seq<char>, m: Lex) -> Lex {
    stood(s, m, s.len() as int)
}

/// The first character from `i` on that is no white space, or what follows the text.
spec fn next_solid(s: Seq<char>, i: int, next: Option<char>) -> Option<char> {
    match solid_from(s, i) {
        Some(c) => Some(c),
        None => next,
    }
}

spec fn closes(c: Option<char>) -> bool {
    c == Some('}') || c == Some(']')
}

/// A text without trailing commas, read from the standing `m`, where `next` follows it.
spec fn commas(s: Seq<char>, m: Lex, next: Option<char>) -> Seq<char> {
    Seq::new(
        s.len(),
        |i: int|
            if s[i] == ',' && stood(s, m, i) == Lex::Plain && closes(next_solid(s, i + 1, next)) {
                ' '
            } else {
                s[i]
            },
    )
}

proof fn lemma_standing(s: Seq<char>, i: int)
    ensures
        standing(s, i) == stood(s, Lex::Plain, i),
    decreases i,
{
    if i > 0 {
        lemma_standing(s, i - 1);
    }
}

proof fn lemma_all_commas(s: Seq<char>)
    ensures
        without_commas(s) == commas(s, Lex::Plain, None),
{
    assert forall|i: int| 0 <= i < s.len() implies without_commas(s)[i] == commas(
        s,
        Lex::Plain,
        None,
    )[i] by {
        lemma_standing(s, i);
    }
    assert(without_commas(s) =~= commas(s, Lex::Plain, None));
}

proof fn lemma_stood_first(a: Seq<char>, b: Seq<char>, m: Lex, i: int)
    requires
        i <= a.len(),
    ensures
        stood(a + b, m, i) == stood(a, m, i),
    decreases i,
{
    if i > 0 {
        lemma_stood_first(a, b, m, i - 1);
        assert((a + b)[i - 1] == a[i - 1]);
    }
}

proof fn lemma_stood_then(a: Seq<char>, b: Seq<char>, m: Lex, i: int)
    requires
        0 <= i <= b.len(),
    ensures
        stood(a + b, m, a.len() + i) == stood(b, stands(a, m), i),
    decreases i,
{
    if i > 0 {
        lemma_stood_then(a, b, m, i - 1);
        assert((a + b)[a.len() + i - 1] == b[i - 1]);
    } else {
        lemma_stood_first(a, b, m, a.len() as int);
    }
}

proof fn lemma_solid_then(a: Seq<char>, b: Seq<char>, i: int)
    requires
        0 <= i <= b.len(),
    ensures
        solid_from(a + b, a.len() + i) == solid_from(b, i),
    decreases b.len() - i,
{
    if i < b.len() {
        assert((a + b)[a.len() + i] == b[i]);
        lemma_solid_then(a, b, i + 1);
    }
}

proof fn lemma_solid_first(a: Seq<char>, b: Seq<char>, i: int)
    requires
        0 <= i <= a.len(),
    ensures
        solid_from(a + b, i) == next_solid(a, i, solid_from(b, 0)),
    decreases a.len() - i,
{
    if i < a.len() {
        assert((a + b)[i] == a[i]);
        lemma_solid_first(a, b, i + 1);
    } else {
        lemma_solid_then(a, b, 0);
    }
}

/// Two texts are read one after the other.
proof fn lemma_commas_join(a: Seq<char>, b: Seq<char>, m: Lex, next: Option<char>)
    ensures
        commas(a + b, m, next) == commas(a, m, next_solid(b, 0, next)) + commas(
            b,
            stands(a, m),
            next,
        ),
        stands(a + b, m) == stands(b, stands(a, m)),
        next_solid(a + b, 0, next) == next_solid(a, 0, next_solid(b, 0, next)),
{
    let s = a + b;
    let x = commas(a, m, next_solid(b, 0, next));
    let y = commas(b, stands(a, m), next);
    lemma_stood_then(a, b, m, b.len() as int);
    lemma_solid_first(a, b, 0);
    assert forall|i: int| 0 <= i < s.len() implies commas(s, m, next)[i] == (x + y)[i] by {
        if i < a.len() {
            lemma_stood_first(a, b, m, i);
            lemma_solid_first(a, b, i + 1);
            assert(s[i] == a[i]);
        } else {
            let j = i - a.len();
            lemma_stood_then(a, b, m, j);
            lemma_solid_then(a, b, j + 1);
            assert(s[i] == b[j]);
        }
    }
    assert(commas(s, m, next) =~= x + y);
}

proof fn lemma_solid_is_there(s: Seq<char>, i: int)
    ensures
        solid_from(s, i) matches Some(c) ==> s.contains(c) && !whitespace(c),
    decreases s.len() - i,
{
    if 0 <= i < s.len() && whitespace(s[i]) {
        lemma_solid_is_there(s, i + 1);
    }
}

proof fn lemma_without_comma(s: Seq<char>, m: Lex, next: Option<char>)
    requires
        !s.contains(','),
    ensures
        commas(s, m, next) == s,
{
    assert forall|i: int| 0 <= i < s.len() implies commas(s, m, next)[i] == s[i] by {
        assert(s.contains(s[i]));
    }
    assert(commas(s, m, next) =~= s);
}

proof fn lemma_without_closer(s: Seq<char>, m: Lex, next: Option<char>)
    requires
        !s.contains('}'),
        !s.contains(']'),
        !closes(next),
    ensures
        commas(s, m, next) == s,
{
    assert forall|i: int| 0 <= i < s.len() implies commas(s, m, next)[i] == s[i] by {
        lemma_solid_is_there(s, i + 1);
    }
    assert(commas(s, m, next) =~= s);
}

proof fn lemma_white(s: Seq<char>, next: Option<char>)
    requires
        blank(s),
    ensures
        commas(s, Lex::Plain, next) == s,
        stands(s, Lex::Plain) == Lex::Plain,
        next_solid(s, 0, next) == next,
{
    assert(!s.contains(',')) by {
        if s.contains(',') {
            let i = choose|i: int| 0 <= i < s.len() && s[i] == ',';
            assert(whitespace(s[i]));
        }
    }
    lemma_without_comma(s, Lex::Plain, next);
    lemma_white_stood(s, s.len() as int);
    lemma_white_solid(s, 0);
}

proof fn lemma_white_stood(s: Seq<char>, i: int)
    requires
        blank(s),
        i <= s.len(),
    ensures
        stood(s, Lex::Plain, i) == Lex::Plain,
    decreases i,
{
    if i > 0 {
        lemma_white_stood(s, i - 1);
        assert(whitespace(s[i - 1]));
    }
}

proof fn lemma_white_solid(s: Seq<char>, i: int)
    requires
        blank(s),
        0 <= i <= s.len(),
    ensures
        solid_from(s, i) is None,
    decreases s.len() - i,
{
    if i < s.len() {
        assert(whitespace(s[i]));
        lemma_white_solid(s, i + 1);
    }
}

proof fn lemma_quiet_stood(s: Seq<char>, m: Lex, i: int)
    requires
        m == Lex::Plain || m == Lex::Text(false),
        quiet_from(s, 0),
        i <= s.len(),
    ensures
        stood(s, m, i) == m,
    decreases i,
{
    if i > 0 {
        lemma_quiet_stood(s, m, i - 1);
        assert(s[i - 1] != '"' && s[i - 1] != '\\');
    }
}

proof fn lemma_quoted_stood(s: Seq<char>, m: Lex, i: int)
    requires
        m == Lex::Plain || m == Lex::Text(false),
        s.len() > 0,
        s[0] == '"',
        quiet_from(s, 1),
        1 <= i <= s.len(),
    ensures
        stood(s, m, i) == turned(m),
    decreases i,
{
    if i > 1 {
        lemma_quoted_stood(s, m, i - 1);
        assert(s[i - 1] != '"' && s[i - 1] != '\\');
    } else {
        assert(stood(s, m, 0) == m);
    }
}

/// Where a reader stands, as far as strings go.
spec fn flat(m: Lex) -> Lex {
    if m is Text {
        m
    } else {
        Lex::Plain
    }
}

proof fn lemma_blanks_stood(n: nat, i: int)
    requires
        i <= n,
    ensures
        stood(blanks(n), Lex::Plain, i) == Lex::Plain,
    decreases i,
{
    if i > 0 {
        lemma_blanks_stood(n, i - 1);
        assert(blanks(n)[i - 1] == ' ');
    }
}

proof fn lemma_stood_uncommented(s: Seq<char>, m: Lex)
    ensures
        stands(uncommented(s, m), flat(m)) == flat(ended(s, m)),
    decreases s.len(),
{
    if s.len() > 0 {
        let step = lex_step(s, m);
        let c = s[0];
        lemma_stood_uncommented(s.skip(step.1), step.2);
        let later = uncommented(s.skip(step.1), step.2);
        lemma_stood_then(step.0, later, flat(m), later.len() as int);
        lemma_blanks_stood(crate::text::byte_len(c), crate::text::byte_len(c) as int);
        lemma_blanks_stood(2, 2);
        let one = seq![c];
        assert(stood(one, flat(m), 0) == flat(m));
        assert(stood(one, flat(m), 1) == after_char(stood(one, flat(m), 0), one[0]));
        assert(stands(step.0, flat(m)) == flat(step.2));
    }
}

/// Inside a written string a reader stays inside it.
proof fn lemma_escaped_stood(s: Seq<char>, i: int)
    requires
        0 <= i <= escaped(s).len(),
    ensures
        stood(escaped(s), Lex::Text(false), i) is Text,
        stands(escaped(s), Lex::Text(false)) == Lex::Text(false),
    decreases s.len(),
{
    let m = Lex::Text(false);
    if s.len() == 0 {
        assert(s =~= seq![]);
        lemma_nothing_escaped();
    } else {
        let t = s.drop_last();
        let c = s.last();
        let x = seq![c];
        assert(s =~= t + x);
        lemma_escaped_add(t, x);
        let a = escaped(t);
        let b = escaped(x);
        lemma_escaped_stood(t, 0);
        lemma_escaped_char(c);
        assert(stood(b, m, 0) == m);
        assert(stood(b, m, 1) == after_char(stood(b, m, 0), b[0]));
        if b.len() == 2 {
            assert(stood(b, m, 2) == after_char(stood(b, m, 1), b[1]));
        }
        lemma_stood_then(a, b, m, b.len() as int);
        if i <= a.len() {
            lemma_escaped_stood(t, i);
            lemma_stood_first(a, b, m, i);
        } else {
            lemma_stood_then(a, b, m, i - a.len());
        }
    }
}

proof fn lemma_escaped_char(x: char)
    ensures
        escaped(seq![x]) == (if x == '\\' {
            seq!['\\', '\\']
        } else if x == '"' {
            seq!['\\', '"']
        } else {
            seq![x]
        }),
{
    reveal_strlit("\\\\");
    reveal_strlit("\\\"");
    let back = "\\\\"@;
    let quote = "\\\""@;
    lemma_replaced_one(x, '\\', back);
    lemma_replaced_one(x, '"', quote);
    lemma_replaced_one('\\', '"', quote);
    if x == '\\' {
        assert(back =~= seq!['\\'] + seq!['\\']);
        lemma_replaced_add(seq!['\\'], seq!['\\'], '"', quote);
        assert(escaped(seq![x]) =~= seq!['\\', '\\']);
    } else if x == '"' {
        assert(escaped(seq![x]) =~= seq!['\\', '"']);
    } else {
        assert(escaped(seq![x]) =~= seq![x]);
    }
}

proof fn lemma_string_is_kept(s: Seq<char>, next: Option<char>)
    ensures
        commas(escaped(s), Lex::Text(false), next) == escaped(s),
        stands(escaped(s), Lex::Text(false)) == Lex::Text(false),
{
    let e = escaped(s);
    lemma_escaped_stood(s, 0);
    assert forall|i: int| 0 <= i < e.len() implies commas(e, Lex::Text(false), next)[i] == e[i] by {
        lemma_escaped_stood(s, i);
    }
    assert(commas(e, Lex::Text(false), next) =~= e);
}

/// Two parts that are kept are kept together.
proof fn lemma_kept_join(a: Seq<char>, b: Seq<char>, m: Lex, n: Lex, k: Lex, next: Option<char>)
    requires
        commas(a, m, next_solid(b, 0, next)) == a,
        stands(a, m) == n,
        commas(b, n, next) == b,
        stands(b, n) == k,
    ensures
        commas(a + b, m, next) == a + b,
        stands(a + b, m) == k,
{
    lemma_commas_join(a, b, m, next);
}

spec fn opening() -> Seq<char> {
    "\n    \""@
}

spec fn reading_name() -> Seq<char> {
    "\": {\n        \"prefix\": \""@
}

proof fn lemma_opening_kept(next: Option<char>)
    ensures
        commas(opening(), Lex::Plain, next) == opening(),
        stands(opening(), Lex::Plain) == Lex::Text(false),
{
    reveal_strlit("\n    \"");
    reveal_strlit("\n    ");
    reveal_strlit("\"");
    let a = "\n    "@;
    let q = "\""@;
    assert(opening() =~= a + q);
    lemma_quiet_stood(a, Lex::Plain, a.len() as int);
    lemma_quoted_stood(q, Lex::Plain, 1);
    lemma_without_comma(a, Lex::Plain, next_solid(q, 0, next));
    lemma_without_comma(q, Lex::Plain, next);
    lemma_kept_join(a, q, Lex::Plain, Lex::Plain, Lex::Text(false), next);
}

proof fn lemma_reading_kept(next: Option<char>)
    ensures
        commas(reading_name(), Lex::Text(false), next) == reading_name(),
        stands(reading_name(), Lex::Text(false)) == Lex::Text(false),
{
    let text = Lex::Text(false);
    reveal_strlit("\": {\n        \"prefix\": \"");
    reveal_strlit("\": {\n        ");
    reveal_strlit("\"prefix");
    reveal_strlit("\": ");
    reveal_strlit("\"");
    let a = "\": {\n        "@;
    let b = "\"prefix"@;
    let c = "\": "@;
    let d = "\""@;
    let s = reading_name();
    assert(s =~= a + b + c + d);
    lemma_quoted_stood(a, text, a.len() as int);
    lemma_quoted_stood(b, Lex::Plain, b.len() as int);
    lemma_quoted_stood(c, text, c.len() as int);
    lemma_quoted_stood(d, Lex::Plain, 1);
    lemma_stood_then(a, b, text, b.len() as int);
    lemma_stood_then(a + b, c, text, c.len() as int);
    lemma_stood_then(a + b + c, d, text, 1);
    assert(!s.contains(','));
    lemma_without_comma(s, text, next);
}

/// What follows the reading, without the last comma.
spec fn closing() -> Seq<char> {
    "\",\n        \"body\": [\"\"],\n        \"description\": \"\"\n    }"@
}

proof fn lemma_closing_first()
    ensures
        ({
            let s = "\",\n        \"body\": [\"\"]"@;
            &&& commas(s, Lex::Text(false), Some(',')) == s
            &&& stands(s, Lex::Text(false)) == Lex::Plain
        }),
{
    let text = Lex::Text(false);
    let next = Some(',');
    reveal_strlit("\",\n        \"body\": [\"\"]");
    reveal_strlit("\",\n        ");
    reveal_strlit("\"body");
    reveal_strlit("\": [");
    reveal_strlit("\"");
    reveal_strlit("\"]");
    let a = "\",\n        "@;
    let b = "\"body"@;
    let c = "\": ["@;
    let d = "\""@;
    let e = "\"]"@;
    let later = b + c + d + e;
    assert("\",\n        \"body\": [\"\"]"@ =~= a + later);
    lemma_quoted_stood(a, text, a.len() as int);
    lemma_quoted_stood(b, Lex::Plain, b.len() as int);
    lemma_quoted_stood(c, text, c.len() as int);
    lemma_quoted_stood(d, Lex::Plain, 1);
    lemma_quoted_stood(e, text, e.len() as int);
    lemma_stood_then(b, c, Lex::Plain, c.len() as int);
    lemma_stood_then(b + c, d, Lex::Plain, 1);
    lemma_stood_then(b + c + d, e, Lex::Plain, e.len() as int);
    assert(!later.contains(','));
    lemma_without_comma(later, Lex::Plain, next);
    assert(later[0] == '"');
    assert(solid_from(later, 0) == Some('"'));
    assert(!a.contains('}') && !a.contains(']'));
    lemma_without_closer(a, text, Some('"'));
    lemma_kept_join(a, later, text, Lex::Plain, Lex::Plain, next);
}

proof fn lemma_closing_note(next: Option<char>)
    ensures
        ({
            let s = "\"description\": \"\"\n    }"@;
            &&& commas(s, Lex::Plain, next) == s
            &&& stands(s, Lex::Plain) == Lex::Plain
            &&& solid_from(s, 0) == Some('"')
        }),
{
    let text = Lex::Text(false);
    reveal_strlit("\"description\": \"\"\n    }");
    reveal_strlit("\"description");
    reveal_strlit("\": ");
    reveal_strlit("\"");
    reveal_strlit("\"\n    }");
    let c = "\"description"@;
    let d = "\": "@;
    let e = "\""@;
    let f = "\"\n    }"@;
    let last = "\"description\": \"\"\n    }"@;
    assert(last =~= c + d + e + f);
    lemma_quoted_stood(c, Lex::Plain, c.len() as int);
    lemma_quoted_stood(d, text, d.len() as int);
    lemma_quoted_stood(e, Lex::Plain, 1);
    lemma_quoted_stood(f, text, f.len() as int);
    lemma_stood_then(c, d, Lex::Plain, d.len() as int);
    lemma_stood_then(c + d, e, Lex::Plain, 1);
    lemma_stood_then(c + d + e, f, Lex::Plain, f.len() as int);
    assert(!last.contains(','));
    lemma_without_comma(last, Lex::Plain, next);
    assert(last[0] == '"');
}

proof fn lemma_closing_later(next: Option<char>)
    ensures
        ({
            let s = ",\n        \"description\": \"\"\n    }"@;
            &&& commas(s, Lex::Plain, next) == s
            &&& stands(s, Lex::Plain) == Lex::Plain
            &&& solid_from(s, 0) == Some(',')
        }),
{
    let b = ",\n        "@;
    let last = "\"description\": \"\"\n    }"@;
    let s = ",\n        \"description\": \"\"\n    }"@;
    assert(s == b + last && s.len() > 0 && s[0] == ',') by {
        reveal_strlit(",\n        \"description\": \"\"\n    }");
        reveal_strlit("\"description\": \"\"\n    }");
        reveal_strlit(",\n        ");
        assert(s =~= b + last);
    }
    lemma_closing_note(next);
    lemma_comma_between();
    lemma_kept_join(b, last, Lex::Plain, Lex::Plain, Lex::Plain, next);
}

proof fn lemma_comma_between()
    ensures
        ({
            let b = ",\n        "@;
            &&& commas(b, Lex::Plain, Some('"')) == b
            &&& stands(b, Lex::Plain) == Lex::Plain
        }),
{
    let b = ",\n        "@;
    reveal_strlit(",\n        ");
    assert(quiet_from(b, 0));
    lemma_quiet_stood(b, Lex::Plain, b.len() as int);
    assert(!b.contains('}') && !b.contains(']'));
    lemma_without_closer(b, Lex::Plain, Some('"'));
}

proof fn lemma_closing_kept(next: Option<char>)
    ensures
        commas(closing(), Lex::Text(false), next) == closing(),
        stands(closing(), Lex::Text(false)) == Lex::Plain,
{
    let a = "\",\n        \"body\": [\"\"]"@;
    let later = ",\n        \"description\": \"\"\n    }"@;
    lemma_closing_first();
    lemma_closing_later(next);
    lemma_kept_join(a, later, Lex::Text(false), Lex::Plain, Lex::Plain, next);
    reveal_strlit("\",\n        \"body\": [\"\"],\n        \"description\": \"\"\n    }");
    reveal_strlit("\",\n        \"body\": [\"\"]");
    reveal_strlit(",\n        \"description\": \"\"\n    }");
    assert(closing() =~= a + later);
}

/// An empty entry without its last comma and line feed.
spec fn entry_body(name: Seq<char>, prefix: Seq<char>) -> Seq<char> {
    opening() + (escaped(name) + (reading_name() + (escaped(prefix) + closing())))
}

proof fn lemma_entry_parts(name: Seq<char>, prefix: Seq<char>)
    ensures
        blank_entry(name, prefix) == entry_body(name, prefix) + seq![',', '\n'],
        member_text(name, prefix) == entry_body(name, prefix) + seq![' ', '\n'],
{
    let a = "\",\n        \"body\": [\"\"],\n        \"description\": \"\"\n    },\n"@;
    let b = "\",\n        \"body\": [\"\"],\n        \"description\": \"\"\n    } \n"@;
    assert(a == closing() + seq![',', '\n']) by {
        reveal_strlit("\",\n        \"body\": [\"\"],\n        \"description\": \"\"\n    },\n");
        reveal_strlit("\",\n        \"body\": [\"\"],\n        \"description\": \"\"\n    }");
        assert(a =~= closing() + seq![',', '\n']);
    }
    assert(b == closing() + seq![' ', '\n']) by {
        reveal_strlit("\",\n        \"body\": [\"\"],\n        \"description\": \"\"\n    } \n");
        reveal_strlit("\",\n        \"body\": [\"\"],\n        \"description\": \"\"\n    }");
        assert(b =~= closing() + seq![' ', '\n']);
    }
    assert(blank_entry(name, prefix) =~= entry_body(name, prefix) + seq![',', '\n']);
    assert(member_text(name, prefix) =~= entry_body(name, prefix) + seq![' ', '\n']);
}

proof fn lemma_entry_body_kept(name: Seq<char>, prefix: Seq<char>)
    ensures
        commas(entry_body(name, prefix), Lex::Plain, Some(',')) == entry_body(name, prefix),
        stands(entry_body(name, prefix), Lex::Plain) == Lex::Plain,
{
    let plain = Lex::Plain;
    let text = Lex::Text(false);
    let n1 = escaped(name);
    let n2 = escaped(prefix);
    let next = Some(',');
    lemma_closing_kept(next);
    lemma_string_is_kept(prefix, next_solid(closing(), 0, next));
    lemma_kept_join(n2, closing(), text, text, plain, next);
    let s4 = n2 + closing();
    lemma_reading_kept(next_solid(s4, 0, next));
    lemma_kept_join(reading_name(), s4, text, text, plain, next);
    let s3 = reading_name() + s4;
    lemma_string_is_kept(name, next_solid(s3, 0, next));
    lemma_kept_join(n1, s3, text, text, plain, next);
    let s2 = n1 + s3;
    lemma_opening_kept(next_solid(s2, 0, next));
    lemma_kept_join(opening(), s2, plain, text, plain, next);
}

proof fn lemma_entry_starts(name: Seq<char>, prefix: Seq<char>)
    ensures
        solid_from(blank_entry(name, prefix), 0) == Some('"'),
{
    let entry = blank_entry(name, prefix);
    let white = "\n    "@;
    let rest = entry.skip(5);
    assert(entry == white + rest && rest.len() > 0 && rest[0] == '"' && blank(white)) by {
        reveal_strlit("\n    \"");
        reveal_strlit("\n    ");
        let a = "\n    \""@;
        assert(entry.len() >= a.len());
        assert forall|i: int| 0 <= i < a.len() implies entry[i] == a[i] by {}
        assert(entry =~= white + rest);
    }
    lemma_white_solid(white, 0);
    lemma_solid_first(white, rest, 0);
    assert(solid_from(rest, 0) == Some('"'));
}

/// Before the bracket that closes a file, an empty entry is a member of an object: its last
/// comma is taken out.
proof fn lemma_entry_is_a_member(name: Seq<char>, prefix: Seq<char>)
    ensures
        commas(blank_entry(name, prefix), Lex::Plain, Some('}')) == member_text(name, prefix),
        stands(blank_entry(name, prefix), Lex::Plain) == Lex::Plain,
        next_solid(blank_entry(name, prefix), 0, Some('}')) == Some('"'),
{
    let plain = Lex::Plain;
    let end = seq![',', '\n'];
    let gone = seq![' ', '\n'];
    let body = entry_body(name, prefix);
    lemma_entry_parts(name, prefix);
    lemma_entry_body_kept(name, prefix);
    lemma_entry_starts(name, prefix);
    assert(solid_from(end, 0) == Some(','));
    lemma_commas_join(body, end, plain, Some('}'));
    assert(commas(end, plain, Some('}')) == gone && stands(end, plain) == plain) by {
        assert(stood(end, plain, 0) == plain);
        assert(stood(end, plain, 1) == after_char(stood(end, plain, 0), end[0]));
        assert(stood(end, plain, 2) == after_char(stood(end, plain, 1), end[1]));
        assert(solid_from(end, 2) is None);
        assert(solid_from(end, 1) == solid_from(end, 2));
        assert(commas(end, plain, Some('}')) =~= gone);
    }
}

proof fn lemma_bare_add(a: Seq<char>, b: Seq<char>)
    requires
        bare(a),
        bare(b),
    ensures
        bare(a + b),
{
    assert forall|i: int| 0 <= i < (a + b).len() implies ' ' <= #[trigger] (a + b)[i] by {
        if i < a.len() {
            assert((a + b)[i] == a[i]);
        } else {
            assert((a + b)[i] == b[i - a.len()]);
        }
    }
}

proof fn lemma_name_is_bare(text: Seq<char>, prefix: Seq<char>)
    requires
        bare(prefix),
    ensures
        bare(fresh_name(text, prefix)),
{
    reveal_strlit("新しい定型文");
    reveal_strlit(" ");
    let base = base_name(prefix);
    assert(bare(base));
    let n = choose|n: nat| free_number(text, base, n);
    lemma_decimal_value(n);
    assert(bare(decimal(n))) by {
        assert forall|i: int| 0 <= i < decimal(n).len() implies ' ' <= #[trigger] decimal(n)[i] by {
            assert(digit(decimal(n)[i]));
        }
    }
    lemma_bare_add(base, " "@);
    lemma_bare_add(base + " "@, decimal(n));
}

/// The last entry decides alone: what follows entries matters only to a comma at their end.
proof fn lemma_entries_commas(e: Seq<char>, m: Lex, a: Option<char>, b: Option<char>)
    requires
        e.len() > 0,
        !whitespace(e.last()),
        e.last() != ',',
    ensures
        commas(e, m, a) == commas(e, m, b),
        commas(e, m, a).last() == e.last(),
{
    let x = commas(e, m, a);
    let y = commas(e, m, b);
    assert forall|i: int| 0 <= i < e.len() implies x[i] == y[i] by {
        if i < e.len() - 1 {
            lemma_solid_before(e, i + 1);
        }
    }
    assert(x =~= y);
}

proof fn lemma_solid_before(e: Seq<char>, i: int)
    requires
        e.len() > 0,
        !whitespace(e.last()),
        0 <= i < e.len(),
    ensures
        solid_from(e, i) is Some,
    decreases e.len() - i,
{
    if whitespace(e[i]) {
        lemma_solid_before(e, i + 1);
    }
}

/// Entries before a comma keep their last character.
proof fn lemma_before_comma(k: Seq<char>)
    ensures
        ({
            let h = commas(k, Lex::Plain, Some(','));
            let n = trim_end(k).len() as int;
            &&& n <= k.len()
            &&& trim_end(k) == k.take(n)
            &&& blank(h.skip(n))
            &&& n > 0 ==> h[n - 1] == k[n - 1] && !whitespace(h[n - 1])
        }),
{
    let h = commas(k, Lex::Plain, Some(','));
    let n = trim_end(k).len() as int;
    lemma_trimmed(k);
    lemma_trimmed_end(k);
    let white = k.skip(n);
    assert forall|i: int| 0 <= i < h.skip(n).len() implies whitespace(#[trigger] h.skip(n)[i]) by {
        assert(whitespace(white[i]));
        assert(k[n + i] == white[i]);
    }
    if n > 0 {
        lemma_white_solid(white, 0);
        assert(k =~= k.take(n) + white);
        lemma_solid_then(k.take(n), white, 0);
        assert(solid_from(k, n) is None);
        assert(k.take(n).last() == k[n - 1]);
    }
}

proof fn lemma_trimmed_end(s: Seq<char>)
    ensures
        trim_end(s).len() > 0 ==> !whitespace(trim_end(s).last()),
    decreases s.len(),
{
    if s.len() > 0 && whitespace(s.last()) {
        lemma_trimmed_end(s.drop_last());
    }
}

proof fn lemma_no_bracket(s: Seq<char>, m: Lex)
    requires
        !s.contains('}'),
    ensures
        !uncommented(s, m).contains('}'),
    decreases s.len(),
{
    if s.len() > 0 {
        let step = lex_step(s, m);
        let rest = s.skip(step.1);
        assert(!rest.contains('}')) by {
            if rest.contains('}') {
                let i = choose|i: int| 0 <= i < rest.len() && rest[i] == '}';
                assert(s[step.1 + i] == '}');
            }
        }
        lemma_no_bracket(rest, step.2);
        let later = uncommented(rest, step.2);
        let u = uncommented(s, m);
        assert(s.contains(s[0]));
        if u.contains('}') {
            let i = choose|i: int| 0 <= i < u.len() && u[i] == '}';
            if i < step.0.len() {
                assert(step.0[i] == '}');
            } else {
                assert(later[i - step.0.len()] == '}');
            }
        }
    }
}

proof fn lemma_last_of_all(s: Seq<char>, c: char)
    ensures
        last_at(s, c) matches Some(i) ==> i < s.len() && !s.skip(i as int + 1).contains(c),
    decreases s.len(),
{
    if s.len() > 0 {
        if s.last() == c {
            assert(s.skip(s.len() as int) =~= seq![]);
        } else {
            let t = s.drop_last();
            lemma_last_of_all(t, c);
            if let Some(i) = last_at(t, c) {
                let x = s.skip(i as int + 1);
                let y = t.skip(i as int + 1);
                if x.contains(c) {
                    let j = choose|j: int| 0 <= j < x.len() && x[j] == c;
                    if j < y.len() {
                        assert(y[j] == c);
                    } else {
                        assert(s.last() == c);
                    }
                }
            }
        }
    }
}

/// What closes a file begins with its bracket, and has no other one.
proof fn lemma_file_end(base: Seq<char>, close: nat)
    requires
        last_at(base, '}') == Some(close),
        close < base.len(),
        base[close as int] == '}',
    ensures
        ({
            let rest = uncommented(base.skip(close as int), Lex::Plain);
            let shown = commas(rest, Lex::Plain, None);
            &&& next_solid(rest, 0, None) == Some('}')
            &&& shown.len() > 0
            &&& shown[0] == '}'
            &&& !shown.skip(1).contains('}')
        }),
{
    let s = base.skip(close as int);
    let rest = uncommented(s, Lex::Plain);
    lemma_last_of_all(base, '}');
    assert(s[0] == '}');
    let step = lex_step(s, Lex::Plain);
    assert(step.0 =~= seq!['}']);
    assert(s.skip(1) =~= base.skip(close as int + 1));
    lemma_no_bracket(s.skip(1), step.2);
    let later = uncommented(s.skip(1), step.2);
    assert(rest =~= seq!['}'] + later);
    assert(rest[0] == '}');
    let shown = commas(rest, Lex::Plain, None);
    let x = shown.skip(1);
    if x.contains('}') {
        let i = choose|i: int| 0 <= i < x.len() && x[i] == '}';
        assert(rest[i + 1] == '}');
        assert(later[i] == '}');
    }
}

proof fn lemma_part_made_of(a: Seq<char>, x: Seq<char>, from: int)
    requires
        0 <= from,
        from + a.len() <= x.len(),
        x.subrange(from, from + a.len()) == a,
    ensures
        made_of(a, x),
{
    assert forall|i: int| 0 <= i < a.len() implies x.contains(#[trigger] a[i]) by {
        assert(x[from + i] == x.subrange(from, from + a.len())[i]);
    }
}

/// What is read from the end of the entries on, before and after.
proof fn lemma_ends(
    gap: Seq<char>,
    more: Seq<char>,
    rest: Seq<char>,
    name: Seq<char>,
    prefix: Seq<char>,
)
    requires
        blank(gap),
        blank(more),
        next_solid(rest, 0, None) == Some('}'),
    ensures
        ({
            let wide = gap + more;
            let shown = commas(rest, Lex::Plain, None);
            let old = wide + rest;
            let now = gap + (blank_entry(name, prefix) + rest);
            &&& blank(wide)
            &&& commas(old, Lex::Plain, None) == wide + shown
            &&& next_solid(old, 0, None) == Some('}')
            &&& commas(now, Lex::Plain, None) == gap + (member_text(name, prefix) + shown)
            &&& next_solid(now, 0, None) == Some('"')
        }),
{
    let plain = Lex::Plain;
    let wide = gap + more;
    let entry = blank_entry(name, prefix);
    lemma_blank_both(gap, more);
    lemma_entry_is_a_member(name, prefix);
    lemma_white(wide, Some('}'));
    lemma_white(gap, Some('"'));
    lemma_commas_join(wide, rest, plain, None);
    lemma_commas_join(entry, rest, plain, None);
    lemma_commas_join(gap, entry + rest, plain, None);
}

/// A file with an empty entry more is, as JSON, the object that it was with a member more.
pub proof fn lemma_appended(text: Seq<char>, prefix: Seq<char>)
    requires
        appendable(text, prefix),
    ensures
        ({
            let base = template_base(text);
            let name = fresh_name(base, prefix);
            &&& bare(name)
            &&& extended(
                plain_json(base),
                plain_json(template_added(text, prefix).0),
                member_text(name, prefix),
            )
        }),
{
    let base = template_base(text);
    let name = fresh_name(base, prefix);
    let close = last_at(base, '}')->0;
    let plain = Lex::Plain;
    let (gap, more) = lemma_read_parts(text, prefix, close);
    let wide = gap + more;
    let e = entries_read(base, close as int);
    let entry = blank_entry(name, prefix);
    let rest = uncommented(base.skip(close as int), plain);
    let shown = commas(rest, plain, None);
    let tail = shown.skip(1);
    let member = member_text(name, prefix);
    lemma_name_is_bare(base, prefix);
    lemma_file_end(base, close);
    lemma_ends(gap, more, rest, name, prefix);
    assert(shown =~= seq!['}'] + tail);
    let old = uncommented(base, plain);
    let now = uncommented(template_added(text, prefix).0, plain);
    lemma_all_commas(old);
    lemma_all_commas(now);
    let end = gap + (entry + rest);
    lemma_commas_join(e, wide + rest, plain, None);
    assert(old =~= e + (wide + rest));
    let p_old = commas(e, plain, Some('}')) + (wide + (seq!['}'] + tail));
    assert(plain_json(base) == p_old);
    assert(wide.subrange(0, gap.len() as int) =~= gap);
    let comma = comma_missing(e);
    reveal_strlit(",");
    if comma.len() > 0 {
        assert(now =~= e + (comma + end));
        lemma_appended_with_comma(e, wide, gap, tail, member, end);
    } else {
        assert(now =~= e + end);
        lemma_commas_join(e, end, plain, None);
        if e.len() == 0 || e.last() != ',' {
            lemma_appended_to_nothing(e, wide, gap, tail, member);
        } else {
            lemma_appended_after_comma(e, wide, gap, tail, member);
        }
    }
}

/// The same where a comma has to be put behind the last entry.
proof fn lemma_appended_with_comma(
    e: Seq<char>,
    wide: Seq<char>,
    gap: Seq<char>,
    tail: Seq<char>,
    member: Seq<char>,
    end: Seq<char>,
)
    requires
        e.len() > 0,
        !whitespace(e.last()),
        e.last() != ',',
        e.last() != '{',
        stands(e, Lex::Plain) == Lex::Plain,
        blank(wide),
        gap.len() <= wide.len(),
        wide.subrange(0, gap.len() as int) == gap,
        !tail.contains('}'),
        commas(end, Lex::Plain, None) == gap + (member + (seq!['}'] + tail)),
        next_solid(end, 0, None) == Some('"'),
    ensures
        extended(
            commas(e, Lex::Plain, Some('}')) + (wide + (seq!['}'] + tail)),
            commas(e + (","@ + end), Lex::Plain, None),
            member,
        ),
{
    let plain = Lex::Plain;
    reveal_strlit(",");
    let comma = ","@;
    assert(!comma.contains('}') && !comma.contains(']'));
    lemma_without_closer(comma, plain, Some('"'));
    lemma_quiet_stood(comma, plain, 1);
    assert(solid_from(comma, 0) == Some(','));
    lemma_commas_join(comma, end, plain, None);
    lemma_commas_join(e, comma + end, plain, None);
    lemma_entries_commas(e, plain, Some('}'), Some(','));
    let head = commas(e, plain, Some('}'));
    let none: Seq<char> = seq![];
    let a = head + (wide + (seq!['}'] + tail));
    let b = head + (comma + (gap + (member + (seq!['}'] + tail))));
    assert(commas(e + (comma + end), plain, None) == b);
    lemma_part_made_of(gap, wide, 0);
    assert(a =~= head + wide + seq!['}'] + tail);
    assert(b =~= head + none + separator(head) + gap + member + seq!['}'] + tail);
    assert(extended_by(a, b, member, head, wide, none, gap, tail));
}

/// The same where there is no entry yet.
proof fn lemma_appended_to_nothing(
    e: Seq<char>,
    wide: Seq<char>,
    gap: Seq<char>,
    tail: Seq<char>,
    member: Seq<char>,
)
    requires
        e.len() > 0 ==> e.last() == '{',
        blank(wide),
        gap.len() <= wide.len(),
        wide.subrange(0, gap.len() as int) == gap,
        !tail.contains('}'),
    ensures
        extended(
            commas(e, Lex::Plain, Some('}')) + (wide + (seq!['}'] + tail)),
            commas(e, Lex::Plain, Some('"')) + (gap + (member + (seq!['}'] + tail))),
            member,
        ),
{
    let plain = Lex::Plain;
    if e.len() > 0 {
        lemma_entries_commas(e, plain, Some('}'), Some('"'));
    } else {
        assert(commas(e, plain, Some('}')) =~= commas(e, plain, Some('"')));
    }
    let head = commas(e, plain, Some('}'));
    let none: Seq<char> = seq![];
    let a = head + (wide + (seq!['}'] + tail));
    let b = head + (gap + (member + (seq!['}'] + tail)));
    lemma_part_made_of(gap, wide, 0);
    assert(a =~= head + wide + seq!['}'] + tail);
    assert(b =~= head + none + separator(head) + gap + member + seq!['}'] + tail);
    assert(extended_by(a, b, member, head, wide, none, gap, tail));
}

/// The same where a comma stands behind the last entry already.
proof fn lemma_appended_after_comma(
    e: Seq<char>,
    wide: Seq<char>,
    gap: Seq<char>,
    tail: Seq<char>,
    member: Seq<char>,
)
    requires
        e.len() > 0,
        e.last() == ',',
        !lone_comma(e),
        stands(e, Lex::Plain) == Lex::Plain,
        blank(wide),
        gap.len() <= wide.len(),
        wide.subrange(0, gap.len() as int) == gap,
        !tail.contains('}'),
    ensures
        extended(
            commas(e, Lex::Plain, Some('}')) + (wide + (seq!['}'] + tail)),
            commas(e, Lex::Plain, Some('"')) + (gap + (member + (seq!['}'] + tail))),
            member,
        ),
{
    let plain = Lex::Plain;
    let k = e.drop_last();
    let c = seq![','];
    reveal_strlit(",");
    assert(e =~= k + c);
    let h = commas(k, plain, Some(','));
    lemma_commas_join(k, c, plain, Some('}'));
    lemma_commas_join(k, c, plain, Some('"'));
    assert(stood(c, stands(k, plain), 0) == stands(k, plain));
    assert(stands(c, stands(k, plain)) == after_char(stands(k, plain), ','));
    assert(stood(c, plain, 0) == plain);
    assert(solid_from(c, 1) is None);
    assert(stands(k, plain) == plain) by {
        lemma_stands_simple(k, plain);
    }
    assert(commas(c, plain, Some('}')) =~= seq![' ']);
    assert(commas(c, plain, Some('"')) =~= c);
    lemma_before_comma(k);
    let n = trim_end(k).len() as int;
    let head = h.take(n);
    let k0 = h.skip(n);
    assert(h =~= head + k0);
    let x = k0 + seq![' '] + wide;
    assert(trim_end(k).last() == k[n - 1]);
    assert(head.last() == h[n - 1]);
    let a = commas(e, plain, Some('}')) + (wide + (seq!['}'] + tail));
    let b = commas(e, plain, Some('"')) + (gap + (member + (seq!['}'] + tail)));
    assert(a =~= head + x + seq!['}'] + tail);
    assert(b =~= head + k0 + separator(head) + gap + member + seq!['}'] + tail);
    assert forall|i: int| 0 <= i < x.len() implies whitespace(#[trigger] x[i]) by {
        if i < k0.len() {
            assert(x[i] == k0[i]);
        } else if i > k0.len() {
            assert(x[i] == wide[i - k0.len() - 1]);
        }
    }
    assert(x.subrange(0, k0.len() as int) =~= k0);
    lemma_part_made_of(k0, x, 0);
    let at = k0.len() as int + 1;
    assert(x.subrange(at, at + gap.len()) =~= gap) by {
        assert forall|i: int| 0 <= i < gap.len() implies x[at + i] == gap[i] by {
            assert(wide.subrange(0, gap.len() as int)[i] == wide[i]);
        }
    }
    lemma_part_made_of(gap, x, at);
    assert(extended_by(a, b, member, head, x, k0, gap, tail));
}

/// A reader that tells only strings apart stands between the tokens or in a string.
proof fn lemma_stands_simple(s: Seq<char>, m: Lex)
    requires
        m is Plain || m is Text,
    ensures
        stands(s, m) is Plain || stands(s, m) is Text,
{
    lemma_stood_simple(s, m, s.len() as int);
}

proof fn lemma_stood_simple(s: Seq<char>, m: Lex, i: int)
    requires
        m is Plain || m is Text,
    ensures
        stood(s, m, i) is Plain || stood(s, m, i) is Text,
    decreases i,
{
    if i > 0 {
        lemma_stood_simple(s, m, i - 1);
    }
}

/// What stands before and behind the last character that counts is read one after the other.
proof fn lemma_split_read(t: Seq<char>, e: int)
    requires
        e == solid_end(t, Lex::Plain),
        ended(t.take(e), Lex::Plain) is Plain,
    ensures
        0 <= e <= t.len(),
        uncommented(t, Lex::Plain) == uncommented(t.take(e), Lex::Plain) + uncommented(
            t.skip(e),
            Lex::Plain,
        ),
{
    lemma_solid_parts(t, Lex::Plain);
    lemma_solid_end(t, Lex::Plain);
}

proof fn lemma_solid_parts(s: Seq<char>, m: Lex)
    ensures
        ({
            let e = solid_end(s, m);
            uncommented(s, m) == uncommented(s.take(e), m) + uncommented(
                s.skip(e),
                ended(s.take(e), m),
            )
        }),
    decreases s.len(),
{
    let e = solid_end(s, m);
    let none: Seq<char> = seq![];
    lemma_solid_end(s, m);
    if e == 0 {
        assert(s.take(0) =~= none);
        assert(s.skip(0) =~= s);
        assert(none + uncommented(s, m) =~= uncommented(s, m));
    } else {
        let step = lex_step(s, m);
        let k = step.1;
        let s2 = s.skip(k);
        let rest = solid_end(s2, step.2);
        let head = s.take(e);
        lemma_solid_end(s2, step.2);
        lemma_solid_parts(s2, step.2);
        assert(head[0] == s[0]);
        if rest > 0 {
            assert(head[1] == s[1]);
            assert(lex_step(head, m) == step);
            assert(head.skip(k) =~= s2.take(rest));
            assert(s.skip(e) =~= s2.skip(rest));
            assert(uncommented(s, m) =~= uncommented(head, m) + uncommented(
                s.skip(e),
                ended(head, m),
            ));
        } else {
            assert(lex_step(head, m) == step);
            assert(head.skip(1) =~= none);
            assert(uncommented(head.skip(1), step.2) == none);
            assert(ended(head.skip(1), step.2) == step.2);
            assert(step.0 + none =~= step.0);
            assert(uncommented(head, m) == step.0);
        }
    }
}

proof fn lemma_feeds_add(a: Seq<char>, b: Seq<char>)
    ensures
        line_feeds(a + b) == line_feeds(a) + line_feeds(b),
    decreases b.len(),
{
    if b.len() == 0 {
        assert(a + b =~= a);
    } else {
        lemma_feeds_add(a, b.drop_last());
        assert((a + b).drop_last() =~= a + b.drop_last());
        assert((a + b).last() == b.last());
    }
}

proof fn lemma_no_feeds(a: Seq<char>)
    requires
        !a.contains('\n'),
    ensures
        line_feeds(a) == 0,
    decreases a.len(),
{
    if a.len() > 0 {
        assert(a[a.len() - 1] == a.last());
        let b = a.drop_last();
        assert(!b.contains('\n')) by {
            if b.contains('\n') {
                let i = choose|i: int| 0 <= i < b.len() && b[i] == '\n';
                assert(a[i] == '\n');
            }
        }
        lemma_no_feeds(b);
    }
}

proof fn lemma_one_feed()
    ensures
        line_feeds(seq!['\n']) == 1,
{
    reveal_with_fuel(line_feeds, 2);
    assert(seq!['\n'].drop_last() =~= seq![]);
}

/// Lines end at line feeds: what stands before one and behind it is parted alone.
proof fn lemma_parted(a: Seq<char>, b: Seq<char>)
    ensures
        split(a + seq!['\n'] + b, '\n') == split(a, '\n') + split(b, '\n'),
        split(a, '\n').len() == line_feeds(a) + 1,
    decreases a.len(),
{
    let c = '\n';
    let s = a + seq![c] + b;
    let n = first_at(a, c) as int;
    lemma_first_at(a, c);
    if n >= a.len() {
        assert forall|j: int| 0 <= j < a.len() implies s[j] != c by {
            assert(s[j] == a[j]);
        }
        assert(s[a.len() as int] == c);
        lemma_is_first_at(s, c, a.len() as int);
        assert(s.take(a.len() as int) =~= a);
        assert(s.skip(a.len() as int + 1) =~= b);
        assert(split(s, c) =~= split(a, c) + split(b, c));
        assert(!a.contains(c));
        lemma_no_feeds(a);
    } else {
        let rest = a.skip(n + 1);
        assert(s =~= a + (seq![c] + b));
        lemma_first_stays(a, seq![c] + b, c);
        assert(s.skip(n + 1) =~= rest + seq![c] + b);
        assert(s.take(n) =~= a.take(n));
        lemma_parted(rest, b);
        assert(split(s, c) =~= split(a, c) + split(b, c));
        let head = a.take(n);
        assert(a =~= head + seq![c] + rest);
        assert(!head.contains(c)) by {
            if head.contains(c) {
                let i = choose|i: int| 0 <= i < head.len() && head[i] == c;
                assert(a[i] == c);
            }
        }
        lemma_no_feeds(head);
        lemma_one_feed();
        lemma_feeds_add(head, seq![c]);
        lemma_feeds_add(head + seq![c], rest);
    }
}

/// The line behind so many line feeds.
proof fn lemma_line_between(a: Seq<char>, w: Seq<char>, b: Seq<char>)
    requires
        !w.contains('\n'),
    ensures
        ({
            let s = a + seq!['\n'] + w + seq!['\n'] + b;
            let at = line_feeds(a) + 1;
            at < split(s, '\n').len() && split(s, '\n')[at as int] == w
        }),
{
    let x = a + seq!['\n'] + w;
    lemma_parted(a, w);
    lemma_parted(x, b);
    lemma_first_of_none(w, '\n');
    assert(split(w, '\n') =~= seq![w]);
    let v = split(a, '\n');
    let all = split(x, '\n') + split(b, '\n');
    assert(all[v.len() as int] == split(x, '\n')[v.len() as int]);
    assert(split(x, '\n')[v.len() as int] == w);
}

/// The line that is given is the one to write on: the empty body, or the empty reading where
/// the reading is not known yet.
pub proof fn law_the_line_is_the_one_to_write_on(text: Seq<char>, prefix: Seq<char>, close: nat)
    requires
        last_at(template_base(text), '}') == Some(close),
    ensures
        ({
            let (t, line) = template_added(text, prefix);
            &&& 1 <= line <= split(t, '\n').len()
            &&& split(t, '\n')[line - 1] == (if prefix.len() == 0 {
                "        \"prefix\": \"\","@
            } else {
                "        \"body\": [\"\"],"@
            })
        }),
{
    let base = template_base(text);
    let close_at = close as int;
    lemma_last_found(base, '}');
    let tail = base.skip(close_at);
    let name = fresh_name(base, prefix);
    let before = closed_off(trim_end(base.take(close_at)));
    let nl = seq!['\n'];
    lemma_one_feed();
    reveal_strlit("\n    \"");
    reveal_strlit("\": {\n        \"prefix\": \"");
    reveal_strlit("\",\n        \"body\": [\"\"],\n        \"description\": \"\"\n    },\n");
    reveal_strlit("\": {");
    reveal_strlit("        \"prefix\": \"");
    reveal_strlit("\",");
    reveal_strlit("        \"prefix\": \"\",");
    reveal_strlit("        \"body\": [\"\"],");
    reveal_strlit("        \"description\": \"\"");
    reveal_strlit("    },");
    let body = "        \"body\": [\"\"],"@;
    let note = "        \"description\": \"\""@;
    let last = "    },"@;
    let first = before + "\n    \""@ + escaped(name) + "\": {"@;
    let given = "        \"prefix\": \""@ + escaped(prefix) + "\","@;
    let none: Seq<char> = seq![];
    let part = before + blank_entry(name, prefix);
    assert(part =~= first + nl + given + nl + body + nl + note + nl + last + nl);
    assert(!body.contains('\n'));
    assert(!note.contains('\n'));
    assert(!last.contains('\n'));
    lemma_no_feeds(body);
    lemma_no_feeds(note);
    lemma_no_feeds(last);
    let a = first + nl + given;
    let behind = note + nl + last + nl;
    lemma_feeds_add(a, nl);
    lemma_feeds_add(a + nl, body);
    lemma_feeds_add(a + nl + body, nl);
    lemma_feeds_add(a + nl + body + nl, behind);
    lemma_feeds_add(note, nl);
    lemma_feeds_add(note + nl, last);
    lemma_feeds_add(note + nl + last, nl);
    assert(part =~= a + nl + body + nl + behind);
    assert(line_feeds(part) == line_feeds(a) + 4);
    let t = part + tail;
    if prefix.len() == 0 {
        assert(prefix =~= none);
        lemma_nothing_escaped();
        let empty = "        \"prefix\": \"\","@;
        assert(given =~= empty);
        assert(!given.contains('\n'));
        lemma_no_feeds(given);
        lemma_feeds_add(first, nl);
        lemma_feeds_add(first + nl, given);
        let rest = body + nl + behind + tail;
        assert(t =~= first + nl + given + nl + rest);
        lemma_line_between(first, given, rest);
    } else {
        let rest = behind + tail;
        assert(t =~= a + nl + body + nl + rest);
        lemma_line_between(a, body, rest);
    }
}

proof fn lemma_nothing_escaped()
    ensures
        escaped(seq![]) == Seq::<char>::empty(),
{
    let none: Seq<char> = seq![];
    assert(none.flat_map(swap('\\', "\\\\"@)) =~= none);
    assert(none.flat_map(swap('"', "\\\""@)) =~= none);
}

} // verus!
