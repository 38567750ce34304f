//! What was learned survives being written and read again, whatever lines stand beside it.
use vstd::prelude::*;
use crate::dict::disk_loaded;
use crate::jisyo::{
    block_written, blocks_added, blocks_written, cand_other_than, cand_read, cand_to_front,
    cand_written, cands_added_upto, cands_written, changed, dict_written, entries_written, entry,
    entry_written, line_loaded, line_read, line_written, lines_loaded, nothing_loaded, okuri_ari,
    okuri_entry, piece_read, pieces_read, text_loaded, texts_added_upto, texts_written,
    without_first_slash, without_last_slash, Blocks, CandText, ChangeText, Loaded, Pieces,
};
use crate::order::{before, lemma_before, lemma_listed_set, listed};
use crate::roundtrip::{
    at_line_start, clean_cand, clean_key, lemma_cand_reads_back, lemma_comment_loaded,
    lemma_comments, lemma_line_loaded_last, lemma_trim_stays, lemma_utf8_reads_back,
};
use crate::text::{
    first_at, lemma_first_at, lemma_is_first_at, lemma_take_next, lines, split, trim, trim_end,
    trim_start, whitespace, without_cr,
};

verus! {

/// A text without line feeds.
pub open spec fn on_line(s: Seq<char>) -> bool {
    !s.contains('\n')
}

/// Texts without line feeds.
pub open spec fn all_on_line(v: Seq<Seq<char>>) -> bool {
    forall|i: int| 0 <= i < v.len() ==> on_line(#[trigger] v[i])
}

/// Candidates without line feeds.
pub open spec fn cands_on_line(v: Seq<CandText>) -> bool {
    forall|i: int|
        0 <= i < v.len() ==> on_line((#[trigger] v[i]).text) && (v[i].annotation is Some ==> on_line(
            v[i].annotation->0,
        ))
}

/// Okurigana without line feeds.
pub open spec fn blocks_on_line(b: Blocks) -> bool {
    &&& b.dom().finite()
    &&& forall|o: Seq<char>| #[trigger] b.dom().contains(o) ==> on_line(o) && all_on_line(b[o])
}

/// A reading as the start of a line is read; it may be empty.
pub open spec fn starts_line(k: Seq<char>) -> bool {
    !k.contains(' ') && on_line(k) && (k.len() > 0 ==> k[0] != ';')
}

/// A dictionary whose entries stay on their lines, as everything that was read does.
pub open spec fn on_lines(d: Loaded) -> bool {
    &&& d.words.dom().finite()
    &&& forall|k: Seq<char>| #[trigger]
        d.words.dom().contains(k) ==> starts_line(k) && cands_on_line(d.words[k])
    &&& forall|k: Seq<char>| #[trigger] d.okuri.dom().contains(k) ==> blocks_on_line(d.okuri[k])
}

proof fn lemma_joined_on_line(a: Seq<char>, b: Seq<char>)
    requires
        on_line(a),
        on_line(b),
    ensures
        on_line(a + b),
{
    let s = a + b;
    if s.contains('\n') {
        let i = choose|i: int| 0 <= i < s.len() && s[i] == '\n';
        if i < a.len() {
            assert(a[i] == '\n');
        } else {
            assert(b[i - a.len()] == '\n');
        }
    }
}

proof fn lemma_part_on_line(s: Seq<char>, from: int, to: int)
    requires
        on_line(s),
        0 <= from <= to <= s.len(),
    ensures
        on_line(s.subrange(from, to)),
{
    let t = s.subrange(from, to);
    if t.contains('\n') {
        let i = choose|i: int| 0 <= i < t.len() && t[i] == '\n';
        assert(s[from + i] == '\n');
    }
}

proof fn lemma_take_on_line(s: Seq<char>, n: int)
    requires
        on_line(s),
        0 <= n <= s.len(),
    ensures
        on_line(s.take(n)),
        on_line(s.skip(n)),
{
    lemma_part_on_line(s, 0, n);
    lemma_part_on_line(s, n, s.len() as int);
    assert(s.take(n) =~= s.subrange(0, n));
    assert(s.skip(n) =~= s.subrange(n, s.len() as int));
}

proof fn lemma_trim_on_line(s: Seq<char>)
    requires
        on_line(s),
    ensures
        on_line(trim(s)),
{
    lemma_trim_start_on_line(s);
    lemma_trim_end_on_line(trim_start(s));
}

proof fn lemma_trim_start_on_line(s: Seq<char>)
    requires
        on_line(s),
    ensures
        on_line(trim_start(s)),
    decreases s.len(),
{
    if s.len() > 0 && whitespace(s[0]) {
        lemma_take_on_line(s, 1);
        lemma_trim_start_on_line(s.skip(1));
    }
}

proof fn lemma_trim_end_on_line(s: Seq<char>)
    requires
        on_line(s),
    ensures
        on_line(trim_end(s)),
    decreases s.len(),
{
    if s.len() > 0 && whitespace(s.last()) {
        lemma_part_on_line(s, 0, s.len() - 1);
        assert(s.drop_last() =~= s.subrange(0, s.len() - 1));
        lemma_trim_end_on_line(s.drop_last());
    }
}

proof fn lemma_split_on_line(s: Seq<char>, c: char)
    requires
        on_line(s),
    ensures
        all_on_line(split(s, c)),
    decreases s.len(),
{
    let n = first_at(s, c) as int;
    lemma_first_at(s, c);
    if n < s.len() {
        lemma_take_on_line(s, n);
        lemma_take_on_line(s, n + 1);
        lemma_split_on_line(s.skip(n + 1), c);
        let v = split(s, c);
        let later = split(s.skip(n + 1), c);
        assert forall|i: int| 0 <= i < v.len() implies on_line(#[trigger] v[i]) by {
            if i > 0 {
                assert(v[i] == later[i - 1]);
            }
        }
    }
}

proof fn lemma_lines_on_line(s: Seq<char>)
    ensures
        all_on_line(lines(s)),
    decreases s.len(),
{
    let n = first_at(s, '\n') as int;
    lemma_first_at(s, '\n');
    if s.len() > 0 {
        let first = s.take(n);
        assert(on_line(first)) by {
            if first.contains('\n') {
                let i = choose|i: int| 0 <= i < first.len() && first[i] == '\n';
                assert(s[i] == '\n');
            }
        }
        if n < s.len() {
            if first.len() > 0 {
                lemma_take_on_line(first, first.len() - 1);
                assert(first.drop_last() =~= first.take(first.len() - 1));
            }
            lemma_lines_on_line(s.skip(n + 1));
            let v = lines(s);
            let later = lines(s.skip(n + 1));
            assert forall|i: int| 0 <= i < v.len() implies on_line(#[trigger] v[i]) by {
                if i > 0 {
                    assert(v[i] == later[i - 1]);
                } else {
                    assert(v[0] == without_cr(first));
                }
            }
        } else {
            assert(first =~= s);
        }
    }
}

/// Pieces of a line without line feeds.
spec fn pieces_on_line(p: Pieces) -> bool {
    &&& cands_on_line(p.cands)
    &&& blocks_on_line(p.blocks)
    &&& p.open is Some ==> on_line((p.open->0).0) && all_on_line((p.open->0).1)
}

proof fn lemma_piece_on_line(p: Pieces, seg: Seq<char>)
    requires
        pieces_on_line(p),
        on_line(seg),
    ensures
        pieces_on_line(piece_read(p, seg)),
{
    let n = first_at(seg, ';') as int;
    lemma_first_at(seg, ';');
    lemma_take_on_line(seg, n);
    if n < seg.len() {
        lemma_take_on_line(seg, n + 1);
    }
    if seg.len() > 0 {
        lemma_take_on_line(seg, 1);
    }
    let q = piece_read(p, seg);
    if let Some(c) = cand_read(seg) {
        assert(on_line(c.text));
        let more = p.cands.push(c);
        assert(cands_on_line(more)) by {
            assert forall|i: int| 0 <= i < more.len() implies on_line((#[trigger] more[i]).text)
                && (more[i].annotation is Some ==> on_line(more[i].annotation->0)) by {
                if i < p.cands.len() {
                    assert(more[i] == p.cands[i]);
                }
            }
        }
        if let Some(o) = p.open {
            let v = o.1.push(c.text);
            assert(all_on_line(v)) by {
                assert forall|i: int| 0 <= i < v.len() implies on_line(#[trigger] v[i]) by {
                    if i < o.1.len() {
                        assert(v[i] == o.1[i]);
                    }
                }
            }
        }
    }
    if let Some(o) = p.open {
        let b = p.blocks.insert(o.0, o.1);
        assert(blocks_on_line(b)) by {
            assert forall|x: Seq<char>| #[trigger] b.dom().contains(x) implies on_line(x)
                && all_on_line(b[x]) by {
                if x != o.0 {
                    assert(p.blocks.dom().contains(x));
                }
            }
        }
    }
    let none: Seq<Seq<char>> = seq![];
    assert(all_on_line(none));
}

proof fn lemma_pieces_on_line(segs: Seq<Seq<char>>, n: int)
    requires
        all_on_line(segs),
        n <= segs.len(),
    ensures
        pieces_on_line(pieces_read(segs, n)),
    decreases n,
{
    if n > 0 {
        lemma_pieces_on_line(segs, n - 1);
        lemma_piece_on_line(pieces_read(segs, n - 1), segs[n - 1]);
    }
}

proof fn lemma_cands_added_on_line(v: Seq<CandText>, more: Seq<CandText>, n: int)
    requires
        cands_on_line(v),
        cands_on_line(more),
        n <= more.len(),
    ensures
        cands_on_line(cands_added_upto(v, more, n)),
    decreases n,
{
    if n > 0 {
        lemma_cands_added_on_line(v, more, n - 1);
        let had = cands_added_upto(v, more, n - 1);
        let now = cands_added_upto(v, more, n);
        assert(on_line(more[n - 1].text));
        assert forall|i: int| 0 <= i < now.len() implies on_line((#[trigger] now[i]).text) && (
        now[i].annotation is Some ==> on_line(now[i].annotation->0)) by {
            if i < had.len() {
                assert(now[i] == had[i]);
            } else {
                assert(now[i] == more[n - 1]);
            }
        }
    }
}

proof fn lemma_texts_added_on_line(v: Seq<Seq<char>>, more: Seq<Seq<char>>, n: int)
    requires
        all_on_line(v),
        all_on_line(more),
        n <= more.len(),
    ensures
        all_on_line(texts_added_upto(v, more, n)),
    decreases n,
{
    if n > 0 {
        lemma_texts_added_on_line(v, more, n - 1);
        let had = texts_added_upto(v, more, n - 1);
        let now = texts_added_upto(v, more, n);
        assert(on_line(more[n - 1]));
        assert forall|i: int| 0 <= i < now.len() implies on_line(#[trigger] now[i]) by {
            if i < had.len() {
                assert(now[i] == had[i]);
            }
        }
    }
}

proof fn lemma_blocks_added_on_line(b: Blocks, more: Blocks)
    requires
        blocks_on_line(b),
        blocks_on_line(more),
    ensures
        blocks_on_line(blocks_added(b, more)),
{
    let all = blocks_added(b, more);
    assert(all.dom() =~= b.dom().union(more.dom()));
    assert forall|o: Seq<char>| #[trigger] all.dom().contains(o) implies on_line(o) && all_on_line(
        all[o],
    ) by {
        let none: Seq<Seq<char>> = seq![];
        if more.dom().contains(o) {
            let had = crate::jisyo::block_entry(b, o);
            assert(all_on_line(had)) by {
                if b.dom().contains(o) {
                    assert(all_on_line(b[o]));
                }
            }
            lemma_texts_added_on_line(had, more[o], more[o].len() as int);
        } else {
            assert(b.dom().contains(o));
        }
    }
}

/// A line that is read leaves every entry on its line.
proof fn lemma_line_stays(d: Loaded, line: Seq<char>)
    requires
        on_lines(d),
        on_line(line),
    ensures
        on_lines(line_loaded(d, line)),
{
    if let Some(l) = line_read(line) {
        let n = first_at(line, ' ') as int;
        lemma_first_at(line, ' ');
        lemma_take_on_line(line, n);
        lemma_take_on_line(line, n + 1);
        let rest = trim(line.skip(n + 1));
        lemma_trim_on_line(line.skip(n + 1));
        if rest.len() > 0 {
            lemma_take_on_line(rest, 1);
        }
        let inner = without_first_slash(rest);
        if inner.len() > 0 {
            lemma_take_on_line(inner, inner.len() - 1);
            assert(inner.drop_last() =~= inner.take(inner.len() - 1));
        }
        let body = without_last_slash(inner);
        lemma_split_on_line(body, '/');
        let segs = split(body, '/');
        lemma_pieces_on_line(segs, segs.len() as int);
        let had = entry(d.words, l.key);
        assert(cands_on_line(had)) by {
            if d.words.dom().contains(l.key) {
                assert(cands_on_line(d.words[l.key]));
            }
        }
        lemma_cands_added_on_line(had, l.cands, l.cands.len() as int);
        let ob = okuri_entry(d.okuri, l.key);
        assert(blocks_on_line(ob)) by {
            if d.okuri.dom().contains(l.key) {
                assert(blocks_on_line(d.okuri[l.key]));
            }
        }
        lemma_blocks_added_on_line(ob, l.blocks);
        assert(starts_line(l.key)) by {
            if l.key.contains(' ') {
                let i = choose|i: int| 0 <= i < l.key.len() && l.key[i] == ' ';
                assert(line[i] == ' ');
            }
        }
        let now = line_loaded(d, line);
        assert(now.words.dom() =~= d.words.dom().insert(l.key));
        assert forall|k: Seq<char>| #[trigger] now.words.dom().contains(k) implies starts_line(k)
            && cands_on_line(now.words[k]) by {
            if k != l.key {
                assert(d.words.dom().contains(k));
            }
        }
        assert forall|k: Seq<char>| #[trigger] now.okuri.dom().contains(k) implies blocks_on_line(
            now.okuri[k],
        ) by {
            if k != l.key || l.blocks.dom().is_empty() {
                assert(d.okuri.dom().contains(k));
            }
        }
    }
}

proof fn lemma_lines_stay(d: Loaded, v: Seq<Seq<char>>, n: int)
    requires
        on_lines(d),
        all_on_line(v),
        n <= v.len(),
    ensures
        on_lines(lines_loaded(d, v, n)),
    decreases n,
{
    if n > 0 {
        lemma_lines_stay(d, v, n - 1);
        lemma_line_stays(lines_loaded(d, v, n - 1), v[n - 1]);
    }
}

/// Whatever was read, its entries stay on their lines.
pub proof fn law_what_was_read_stays_on_its_lines(
    disk: Option<&Vec<u8>>,
    import: Option<&Vec<u8>>,
)
    ensures
        on_lines(disk_loaded(disk, import)),
{
    assert(on_lines(nothing_loaded()));
    match (disk, import) {
        (Some(b), _) => {
            let t = crate::dict::jisyo_text(b@);
            lemma_lines_on_line(t);
            lemma_lines_stay(nothing_loaded(), lines(t), lines(t).len() as int);
        },
        (None, Some(b)) => {
            let t = crate::dict::jisyo_text(b@);
            lemma_lines_on_line(t);
            lemma_lines_stay(nothing_loaded(), lines(t), lines(t).len() as int);
        },
        (None, None) => {},
    }
}

/// A word that a line can hold stays on its line when it is learned.
pub proof fn lemma_learned_stays(d: Loaded, key: Seq<char>, cand: CandText)
    requires
        on_lines(d),
        clean_key(key),
        clean_cand(cand),
    ensures
        on_lines(changed(d, ChangeText::Learn(key, cand))),
{
    let own = entry(d.words, key);
    assert(cands_on_line(own)) by {
        if d.words.dom().contains(key) {
            assert(cands_on_line(d.words[key]));
        }
    }
    let p = cand_other_than(cand.text);
    let f = own.filter(p);
    let all = cand_to_front(own, cand);
    assert forall|i: int| 0 <= i < all.len() implies on_line((#[trigger] all[i]).text) && (
    all[i].annotation is Some ==> on_line(all[i].annotation->0)) by {
        if i > 0 {
            assert(all[i] == f[i - 1]);
            assert(f.contains(f[i - 1]));
            own.lemma_filter_contains_rev(p, f[i - 1]);
            let m = choose|m: int| 0 <= m < own.len() && own[m] == f[i - 1];
            assert(on_line(own[m].text));
        }
    }
    let now = changed(d, ChangeText::Learn(key, cand));
    assert(now.words.dom() =~= d.words.dom().insert(key));
    assert forall|k: Seq<char>| #[trigger] now.words.dom().contains(k) implies starts_line(k)
        && cands_on_line(now.words[k]) by {
        if k != key {
            assert(d.words.dom().contains(k));
        }
    }
}

proof fn lemma_cand_on_line(c: CandText)
    requires
        on_line(c.text),
        c.annotation is Some ==> on_line(c.annotation->0),
    ensures
        on_line(cand_written(c)),
{
    if let Some(a) = c.annotation {
        let semi = seq![';'];
        assert(on_line(semi));
        lemma_joined_on_line(c.text, semi);
        lemma_joined_on_line(c.text + semi, a);
    }
}

/// What is written of candidates begins with the first of them, stays on its line and ends
/// with a slash.
proof fn lemma_cands_written(v: Seq<CandText>, n: int)
    requires
        0 < n <= v.len(),
        cands_on_line(v),
    ensures
        ({
            let s = cands_written(v, n);
            let c = cand_written(v[0]);
            &&& on_line(s)
            &&& s.len() > c.len()
            &&& s.take(c.len() as int) == c
            &&& s[c.len() as int] == '/'
            &&& s.last() == '/'
        }),
    decreases n,
{
    let s = cands_written(v, n);
    let a = cands_written(v, n - 1);
    let w = cand_written(v[n - 1]);
    let slash = seq!['/'];
    assert(on_line(v[n - 1].text));
    lemma_cand_on_line(v[n - 1]);
    assert(on_line(slash));
    if n > 1 {
        lemma_cands_written(v, n - 1);
        let c = cand_written(v[0]);
        assert(s.take(c.len() as int) =~= a.take(c.len() as int));
        assert(s[c.len() as int] == a[c.len() as int]);
    } else {
        assert(a =~= seq![]);
        assert(s =~= w + slash);
        assert(s.take(w.len() as int) =~= w);
    }
    lemma_joined_on_line(a, w);
    lemma_joined_on_line(a + w, slash);
}

proof fn lemma_texts_written(v: Seq<Seq<char>>, n: int)
    requires
        n <= v.len(),
        all_on_line(v),
    ensures
        on_line(texts_written(v, n)),
    decreases n,
{
    if n > 0 {
        lemma_texts_written(v, n - 1);
        assert(on_line(v[n - 1]));
        let slash = seq!['/'];
        assert(on_line(slash));
        lemma_joined_on_line(texts_written(v, n - 1), v[n - 1]);
        lemma_joined_on_line(texts_written(v, n - 1) + v[n - 1], slash);
    }
}

proof fn lemma_block_written(o: Seq<char>, v: Seq<Seq<char>>)
    requires
        on_line(o),
        all_on_line(v),
    ensures
        on_line(block_written(o, v)),
        block_written(o, v).len() > 0 ==> block_written(o, v).last() == '/',
{
    if v.len() > 0 {
        let open = seq!['['];
        let slash = seq!['/'];
        let close = seq![']', '/'];
        assert(on_line(open) && on_line(slash) && on_line(close));
        let t = texts_written(v, v.len() as int);
        lemma_texts_written(v, v.len() as int);
        lemma_joined_on_line(open, o);
        lemma_joined_on_line(open + o, slash);
        lemma_joined_on_line(open + o + slash, t);
        lemma_joined_on_line(open + o + slash + t, close);
        assert(block_written(o, v).last() == close.last());
    }
}

proof fn lemma_blocks_written(b: Blocks, keys: Seq<Seq<char>>, n: int)
    requires
        blocks_on_line(b),
        0 <= n <= keys.len(),
        forall|i: int| 0 <= i < keys.len() ==> b.dom().contains(#[trigger] keys[i]),
    ensures
        on_line(blocks_written(b, keys, n)),
        blocks_written(b, keys, n).len() > 0 ==> blocks_written(b, keys, n).last() == '/',
    decreases n,
{
    if n > 0 {
        lemma_blocks_written(b, keys, n - 1);
        let o = keys[n - 1];
        assert(b.dom().contains(o));
        lemma_block_written(o, b[o]);
        let had = blocks_written(b, keys, n - 1);
        let more = block_written(o, b[o]);
        lemma_joined_on_line(had, more);
        if more.len() > 0 {
            assert((had + more).last() == more.last());
        } else {
            assert(had + more =~= had);
        }
    }
}

/// A line that was written stays on its line, and starts with its reading.
proof fn lemma_line_written(key: Seq<char>, cands: Seq<CandText>, b: Blocks)
    requires
        starts_line(key),
        cands.len() > 0,
        cands_on_line(cands),
        blocks_on_line(b),
    ensures
        ({
            let line = line_written(key, cands, b);
            let c = cand_written(cands[0]);
            let rest = line.skip(key.len() as int + 2);
            &&& on_line(line)
            &&& line.len() > key.len() + 2 + c.len()
            &&& line.last() == '/'
            &&& first_at(line, ' ') == key.len()
            &&& line.take(key.len() as int) == key
            &&& line[key.len() as int + 1] == '/'
            &&& rest.take(c.len() as int) == c
            &&& rest[c.len() as int] == '/'
            &&& rest.last() == '/'
        }),
{
    let line = line_written(key, cands, b);
    let keys = listed(false, b.dom());
    lemma_listed_set(false, b.dom());
    assert forall|i: int| 0 <= i < keys.len() implies b.dom().contains(#[trigger] keys[i]) by {
        assert(keys.to_set().contains(keys[i]));
    }
    let mid = seq![' ', '/'];
    let x = cands_written(cands, cands.len() as int);
    let y = blocks_written(b, keys, keys.len() as int);
    lemma_cands_written(cands, cands.len() as int);
    lemma_blocks_written(b, keys, keys.len() as int);
    assert(on_line(mid));
    lemma_joined_on_line(key, mid);
    lemma_joined_on_line(key + mid, x);
    lemma_joined_on_line(key + mid + x, y);
    assert(line =~= key + mid + x + y);
    let n = key.len() as int;
    assert(line[n] == ' ');
    assert forall|j: int| 0 <= j < n implies line[j] != ' ' by {
        assert(line[j] == key[j]);
    }
    lemma_is_first_at(line, ' ', n);
    assert(line.take(n) =~= key);
    let rest = line.skip(n + 2);
    assert(rest =~= x + y);
    let c = cand_written(cands[0]);
    assert(rest.take(c.len() as int) =~= x.take(c.len() as int));
    assert(rest[c.len() as int] == x[c.len() as int]);
    if y.len() > 0 {
        assert(rest.last() == y.last());
    } else {
        assert(rest =~= x);
    }
    assert(line.last() == rest.last());
}

proof fn lemma_first_piece_stays(segs: Seq<Seq<char>>, n: int, c: CandText)
    requires
        1 <= n <= segs.len(),
        cand_read(segs[0]) == Some(c),
        segs[0].len() > 0,
        segs[0][0] != '[',
        segs[0][0] != ']',
    ensures
        pieces_read(segs, n).cands.len() > 0,
        pieces_read(segs, n).cands[0] == c,
    decreases n,
{
    if n > 1 {
        lemma_first_piece_stays(segs, n - 1, c);
    } else {
        let none = pieces_read(segs, 0);
        assert(none.cands =~= seq![]);
    }
}

/// A line that was written says its reading, and the first candidate if that is a clean one.
proof fn lemma_first_reads_back(key: Seq<char>, cands: Seq<CandText>, b: Blocks)
    requires
        clean_key(key),
        cands.len() > 0,
        clean_cand(cands[0]),
        cands_on_line(cands),
        blocks_on_line(b),
    ensures
        ({
            let r = line_read(line_written(key, cands, b));
            &&& r is Some
            &&& r->0.key == key
            &&& r->0.cands.len() > 0
            &&& r->0.cands[0] == cands[0]
        }),
{
    lemma_line_written(key, cands, b);
    let line = line_written(key, cands, b);
    let n = key.len() as int;
    let c = cand_written(cands[0]);
    lemma_cand_reads_back(cands[0]);
    let after = line.skip(n + 1);
    let rest = line.skip(n + 2);
    assert(after =~= seq!['/'] + rest);
    assert(after.last() == rest.last());
    lemma_trim_stays(after);
    assert(without_first_slash(after) =~= rest);
    let body = rest.drop_last();
    assert(without_last_slash(rest) == body);
    let m = c.len() as int;
    assert forall|j: int| 0 <= j < m implies rest[j] != '/' by {
        assert(rest.take(m)[j] == rest[j]);
        assert(c[j] == rest[j]);
        assert(!c.contains('/'));
    }
    let segs = split(body, '/');
    assert(segs.len() > 0 && segs[0] == c) by {
        assert(body.take(m) =~= c) by {
            assert(rest.take(m) =~= body.take(m));
        }
        if body.len() > m {
            assert(body[m] == rest[m]);
        }
        assert forall|j: int| 0 <= j < m implies body[j] != '/' by {
            assert(body[j] == rest[j]);
        }
        lemma_is_first_at(body, '/', m);
        if m >= body.len() {
            assert(body =~= c);
        }
    }
    assert(c.len() > 0 && c[0] == cands[0].text[0]);
    lemma_first_piece_stays(segs, segs.len() as int, cands[0]);
    assert(line[0] == key[0]);
}

proof fn lemma_added_keeps_first(v: Seq<CandText>, more: Seq<CandText>, n: int)
    requires
        0 <= n <= more.len(),
        v.len() > 0 || n > 0,
    ensures
        cands_added_upto(v, more, n).len() > 0,
        cands_added_upto(v, more, n)[0] == (if v.len() > 0 {
            v[0]
        } else {
            more[0]
        }),
    decreases n,
{
    if n > 0 {
        if v.len() > 0 || n > 1 {
            lemma_added_keeps_first(v, more, n - 1);
        } else {
            assert(cands_added_upto(v, more, 0) == v);
        }
    }
}

/// What is written of a dictionary says the first candidate of a reading as soon as its line
/// is there, and nothing of that reading before.
proof fn lemma_entries_say(
    d: Loaded,
    start: Seq<char>,
    keys: Seq<Seq<char>>,
    ari: bool,
    n: int,
    k: Seq<char>,
    c: CandText,
)
    requires
        on_lines(d),
        keys == listed(false, d.words.dom()),
        0 <= n <= keys.len(),
        at_line_start(start),
        clean_key(k),
        clean_cand(c),
        d.words.dom().contains(k),
        d.words[k].len() > 0,
        d.words[k][0] == c,
        okuri_ari(k) == ari ==> entry(text_loaded(nothing_loaded(), start).words, k).len() == 0,
    ensures
        ({
            let all = start + entries_written(d, keys, ari, n);
            let v = entry(text_loaded(nothing_loaded(), all).words, k);
            let w = entry(text_loaded(nothing_loaded(), start).words, k);
            &&& at_line_start(all)
            &&& okuri_ari(k) == ari && keys.take(n).contains(k) ==> v.len() > 0 && v[0] == c
            &&& !(okuri_ari(k) == ari && keys.take(n).contains(k)) ==> v == w
        }),
    decreases n,
{
    let none = nothing_loaded();
    let all = start + entries_written(d, keys, ari, n);
    if n > 0 {
        lemma_entries_say(d, start, keys, ari, n - 1, k, c);
        let key = keys[n - 1];
        let most = start + entries_written(d, keys, ari, n - 1);
        lemma_listed_set(false, d.words.dom());
        assert(keys.to_set().contains(key));
        assert(d.words.dom().contains(key));
        lemma_take_next(keys, n - 1);
        crate::order::lemma_push_contains(keys.take(n - 1), key, k);
        if okuri_ari(key) != ari {
            assert(all =~= most);
        } else {
            let b = if ari {
                okuri_entry(d.okuri, key)
            } else {
                Map::empty()
            };
            assert(blocks_on_line(b)) by {
                if ari && d.okuri.dom().contains(key) {
                    assert(blocks_on_line(d.okuri[key]));
                }
            }
            let v = d.words[key];
            if v.len() == 0 {
                assert(all =~= most);
            } else {
                lemma_line_written(key, v, b);
                let line = line_written(key, v, b);
                assert(entry_written(key, v, b) =~= line + seq!['\n']);
                assert(all =~= most + line + seq!['\n']);
                lemma_line_loaded_last(none, most, line);
                let had = text_loaded(none, most);
                if key == k {
                    assert(!keys.take(n - 1).contains(k)) by {
                        let some = keys.take(n - 1);
                        if some.contains(k) {
                            let j = choose|j: int| 0 <= j < some.len() && some[j] == k;
                            lemma_before(false);
                            assert(before(false, keys[j], keys[n - 1]));
                        }
                    }
                    lemma_first_reads_back(k, v, b);
                    let l = line_read(line)->0;
                    lemma_added_keeps_first(
                        entry(had.words, k),
                        l.cands,
                        l.cands.len() as int,
                    );
                } else {
                    if let Some(l) = line_read(line) {
                        assert(l.key == key);
                    }
                }
            }
        }
    } else {
        assert(all =~= start);
        assert(keys.take(0) =~= seq![]);
    }
}

/// The first candidate of a reading is read again from what was written, whatever else was
/// written with it.
pub proof fn law_the_first_candidate_reads_back(
    d: Loaded,
    file: &Vec<u8>,
    import: Option<&Vec<u8>>,
    k: Seq<char>,
    c: CandText,
)
    requires
        on_lines(d),
        file@ == vstd::utf8::encode_utf8(dict_written(d)),
        clean_key(k),
        clean_cand(c),
        entry(d.words, k).len() > 0,
        entry(d.words, k)[0] == c,
    ensures
        ({
            let v = entry(disk_loaded(Some(file), import).words, k);
            v.len() > 0 && v[0] == c
        }),
{
    let keys = listed(false, d.words.dom());
    lemma_listed_set(false, d.words.dom());
    let none: Seq<char> = seq![];
    let nothing = nothing_loaded();
    let c1 = ";; -*- mode: fundamental; coding: utf-8 -*-\n"@;
    let c2 = ";; ttyskk 利用者辞書\n"@;
    let c3 = ";; okuri-ari entries.\n"@;
    let c4 = ";; okuri-nasi entries.\n"@;
    lemma_comments();
    assert(lines(none) =~= seq![]);
    assert(text_loaded(nothing, none) == nothing);
    assert(none + c1 =~= c1);
    lemma_comment_loaded(nothing, none, c1);
    lemma_comment_loaded(nothing, c1, c2);
    lemma_comment_loaded(nothing, c1 + c2, c3);
    let start = c1 + c2 + c3;
    let n = keys.len() as int;
    assert(entry(nothing.words, k).len() == 0);
    lemma_entries_say(d, start, keys, true, n, k, c);
    let half = start + entries_written(d, keys, true, n);
    lemma_comment_loaded(nothing, half, c4);
    assert(keys.take(n) =~= keys);
    assert(keys.contains(k)) by {
        assert(keys.to_set().contains(k));
    }
    lemma_entries_say(d, half + c4, keys, false, n, k, c);
    let t = dict_written(d);
    assert(t =~= half + c4 + entries_written(d, keys, false, n));
    assert(t[0] == c1[0]);
    lemma_utf8_reads_back(t);
}

} // verus!
