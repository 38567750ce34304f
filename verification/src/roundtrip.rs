//! What is written to a user's dictionary is read back from it.
use vstd::prelude::*;
use vstd::string::*;
use crate::dict::{disk_loaded, jisyo_text};
use crate::jisyo::{
    blank, block_entry, block_written, blocks_added, blocks_written, cand_read, cand_written,
    cands_added_upto, cands_written, dict_written, entries_written, entry, entry_written, has_cand,
    line_loaded, line_read, line_written, lines_loaded, nothing_loaded, okuri_ari, okuri_entry,
    piece_read, pieces_read, text_loaded, texts_added, texts_added_upto, texts_written,
    without_first_slash, without_last_slash, Blocks, CandText, LineText, Loaded, Pieces,
};
use crate::order::{before, lemma_before, lemma_listed_set, listed};
use crate::text::{
    first_at, lemma_first_at, lemma_first_of_none, lemma_first_stays, lemma_is_first_at,
    lemma_split_push, lemma_take_next, lines, split, trim, whitespace,
};

verus! {

/// A text that can stand between slashes.
pub open spec fn plain_piece(t: Seq<char>) -> bool {
    !t.contains('/') && !t.contains('\n')
}

/// A text that is read as the candidate that it is written as.
pub open spec fn clean_word(t: Seq<char>) -> bool {
    &&& t.len() > 0
    &&& !blank(t)
    &&& plain_piece(t)
    &&& !t.contains(';')
    &&& t[0] != '['
    &&& t[0] != ']'
}

/// A candidate that a line can hold.
pub open spec fn clean_cand(c: CandText) -> bool {
    clean_word(c.text) && (c.annotation is Some ==> plain_piece(c.annotation->0))
}

/// Candidates that a line can hold: each is written but once.
pub open spec fn clean_cands(v: Seq<CandText>) -> bool {
    &&& forall|i: int| 0 <= i < v.len() ==> clean_cand(#[trigger] v[i])
    &&& forall|i: int, j: int|
        0 <= i < j < v.len() ==> (#[trigger] v[i]).text != (#[trigger] v[j]).text
}

/// Okurigana that a line can hold.
pub open spec fn clean_blocks(b: Blocks) -> bool {
    &&& b.dom().finite()
    &&& forall|o: Seq<char>| #[trigger]
        b.dom().contains(o) ==> {
            &&& o.len() > 0
            &&& plain_piece(o)
            &&& b[o].len() > 0
            &&& b[o].no_duplicates()
            &&& forall|i: int| 0 <= i < b[o].len() ==> clean_word(#[trigger] b[o][i])
        }
}

/// A reading that a line can start with.
pub open spec fn clean_key(k: Seq<char>) -> bool {
    k.len() > 0 && k[0] != ';' && !k.contains(' ') && !k.contains('\n')
}

/// A user's dictionary that a file can hold: every reading has candidates, and only readings
/// with okurigana have texts for them.
pub open spec fn writable(d: Loaded) -> bool {
    &&& d.words.dom().finite()
    &&& forall|k: Seq<char>| #[trigger]
        d.words.dom().contains(k) ==> clean_key(k) && d.words[k].len() > 0 && clean_cands(
            d.words[k],
        )
    &&& forall|k: Seq<char>| #[trigger]
        d.okuri.dom().contains(k) ==> {
            &&& d.words.dom().contains(k)
            &&& okuri_ari(k)
            &&& clean_blocks(d.okuri[k])
            &&& !d.okuri[k].dom().is_empty()
        }
}

/// Pieces, each with a slash behind it.
spec fn slashed(v: Seq<Seq<char>>) -> Seq<char>
    decreases v.len(),
{
    if v.len() == 0 {
        seq![]
    } else {
        slashed(v.drop_last()) + v.last() + seq!['/']
    }
}

proof fn lemma_slashed_joins(a: Seq<Seq<char>>, b: Seq<Seq<char>>)
    ensures
        slashed(a + b) == slashed(a) + slashed(b),
    decreases b.len(),
{
    if b.len() == 0 {
        assert(a + b =~= a);
        assert(slashed(a) + slashed(b) =~= slashed(a));
    } else {
        assert((a + b).drop_last() =~= a + b.drop_last());
        lemma_slashed_joins(a, b.drop_last());
        assert(slashed(a + b) =~= slashed(a) + slashed(b));
    }
}

/// Pieces are read back from between slashes.
proof fn lemma_slashed_splits(v: Seq<Seq<char>>)
    requires
        v.len() > 0,
        forall|i: int| 0 <= i < v.len() ==> !(#[trigger] v[i]).contains('/'),
    ensures
        slashed(v).len() > 0,
        slashed(v).last() == '/',
        split(slashed(v).drop_last(), '/') == v,
    decreases v.len(),
{
    let s = slashed(v);
    let a = slashed(v.drop_last());
    let w = v.last();
    assert(v[v.len() - 1] == w);
    assert(s.drop_last() =~= a + w);
    if v.len() == 1 {
        assert(a =~= seq![]);
        assert(s.drop_last() =~= w);
        lemma_first_of_none(w, '/');
        assert(split(w, '/') =~= seq![w]);
        assert(v =~= seq![w]);
    } else {
        let u = v.drop_last();
        assert forall|i: int| 0 <= i < u.len() implies !(#[trigger] u[i]).contains('/') by {
            assert(u[i] == v[i]);
        }
        lemma_slashed_splits(u);
        assert(a =~= a.drop_last() + seq!['/']);
        assert(s.drop_last() =~= a.drop_last() + seq!['/'] + w);
        lemma_split_push(a.drop_last(), w, '/');
        assert(u.push(w) =~= v);
    }
}

/// The pieces of candidates.
spec fn cand_pieces(v: Seq<CandText>) -> Seq<Seq<char>> {
    v.map_values(|c: CandText| cand_written(c))
}

/// The pieces of one okurigana.
spec fn block_pieces(o: Seq<char>, v: Seq<Seq<char>>) -> Seq<Seq<char>> {
    seq![seq!['['] + o] + v + seq![seq![']']]
}

/// The pieces of the first `n` okurigana.
spec fn blocks_pieces(b: Blocks, keys: Seq<Seq<char>>, n: int) -> Seq<Seq<char>>
    decreases n,
{
    if n <= 0 {
        seq![]
    } else {
        blocks_pieces(b, keys, n - 1) + block_pieces(keys[n - 1], b[keys[n - 1]])
    }
}

proof fn lemma_cands_slashed(v: Seq<CandText>, n: int)
    requires
        0 <= n <= v.len(),
    ensures
        cands_written(v, n) == slashed(cand_pieces(v).take(n)),
    decreases n,
{
    let p = cand_pieces(v);
    if n > 0 {
        lemma_cands_slashed(v, n - 1);
        lemma_take_next(p, n - 1);
        assert(p.take(n).drop_last() =~= p.take(n - 1));
    } else {
        assert(p.take(0) =~= seq![]);
    }
}

proof fn lemma_texts_slashed(v: Seq<Seq<char>>, n: int)
    requires
        0 <= n <= v.len(),
    ensures
        texts_written(v, n) == slashed(v.take(n)),
    decreases n,
{
    if n > 0 {
        lemma_texts_slashed(v, n - 1);
        lemma_take_next(v, n - 1);
        assert(v.take(n).drop_last() =~= v.take(n - 1));
    } else {
        assert(v.take(0) =~= seq![]);
    }
}

proof fn lemma_one_slashed(p: Seq<char>)
    ensures
        slashed(seq![p]) == p + seq!['/'],
{
    let one = seq![p];
    assert(one.drop_last() =~= seq![]);
    assert(slashed(one.drop_last()) =~= seq![]);
    assert(slashed(one) =~= p + seq!['/']);
}

proof fn lemma_block_slashed(o: Seq<char>, v: Seq<Seq<char>>)
    requires
        v.len() > 0,
    ensures
        block_written(o, v) == slashed(block_pieces(o, v)),
{
    let head = seq!['['] + o;
    let tail: Seq<char> = seq![']'];
    lemma_texts_slashed(v, v.len() as int);
    assert(v.take(v.len() as int) =~= v);
    lemma_slashed_joins(seq![head] + v, seq![tail]);
    lemma_slashed_joins(seq![head], v);
    lemma_one_slashed(head);
    lemma_one_slashed(tail);
    assert(block_written(o, v) =~= slashed(block_pieces(o, v)));
}

proof fn lemma_blocks_slashed(b: Blocks, keys: Seq<Seq<char>>, n: int)
    requires
        0 <= n <= keys.len(),
        forall|i: int| 0 <= i < keys.len() ==> b[#[trigger] keys[i]].len() > 0,
    ensures
        blocks_written(b, keys, n) == slashed(blocks_pieces(b, keys, n)),
    decreases n,
{
    if n > 0 {
        lemma_blocks_slashed(b, keys, n - 1);
        lemma_block_slashed(keys[n - 1], b[keys[n - 1]]);
        lemma_slashed_joins(
            blocks_pieces(b, keys, n - 1),
            block_pieces(keys[n - 1], b[keys[n - 1]]),
        );
    }
}

/// A candidate is read back from its piece.
pub proof fn lemma_cand_reads_back(c: CandText)
    requires
        clean_cand(c),
    ensures
        cand_read(cand_written(c)) == Some(c),
        !cand_written(c).contains('/'),
        !cand_written(c).contains('\n'),
        cand_written(c).len() > 0,
        cand_written(c)[0] != '[',
        cand_written(c)[0] != ']',
{
    let s = cand_written(c);
    let t = c.text;
    lemma_first_of_none(t, ';');
    assert(s[0] == t[0]);
    let i = choose|i: int| 0 <= i < t.len() && !(#[trigger] t[i] == ' ' || t[i] == '\t');
    assert(s[i] == t[i]);
    assert(!blank(s));
    match c.annotation {
        Some(a) => {
            assert(s[t.len() as int] == ';');
            assert forall|j: int| 0 <= j < t.len() implies s[j] != ';' by {
                assert(s[j] == t[j]);
            }
            lemma_is_first_at(s, ';', t.len() as int);
            assert(s.take(t.len() as int) =~= t);
            assert(s.skip(t.len() as int + 1) =~= a);
            assert forall|j: int| 0 <= j < s.len() implies s[j] != '/' && s[j] != '\n' by {
                if j < t.len() {
                    assert(s[j] == t[j]);
                } else if j > t.len() {
                    assert(s[j] == a[j - t.len() - 1]);
                }
            }
        },
        None => {},
    }
}

proof fn lemma_cand_pieces_read(v: Seq<CandText>, segs: Seq<Seq<char>>, n: int)
    requires
        clean_cands(v),
        0 <= n <= v.len() <= segs.len(),
        forall|i: int| 0 <= i < v.len() ==> #[trigger] segs[i] == cand_written(v[i]),
    ensures
        pieces_read(segs, n) == (Pieces { cands: v.take(n), blocks: Map::empty(), open: None }),
    decreases n,
{
    if n > 0 {
        lemma_cand_pieces_read(v, segs, n - 1);
        assert(segs[n - 1] == cand_written(v[n - 1]));
        assert(clean_cand(v[n - 1]));
        lemma_cand_reads_back(v[n - 1]);
        lemma_take_next(v, n - 1);
    } else {
        assert(v.take(0) =~= seq![]);
    }
}

/// The texts of an okurigana are read back.
proof fn lemma_block_texts_read(
    segs: Seq<Seq<char>>,
    at: int,
    before: Pieces,
    o: Seq<char>,
    v: Seq<Seq<char>>,
    n: int,
)
    requires
        0 <= at,
        at + v.len() <= segs.len(),
        0 <= n <= v.len(),
        pieces_read(segs, at) == (Pieces { open: Some((o, seq![])), ..before }),
        forall|i: int| 0 <= i < v.len() ==> #[trigger] segs[at + i] == v[i],
        forall|i: int| 0 <= i < v.len() ==> clean_word(#[trigger] v[i]),
    ensures
        pieces_read(segs, at + n) == (Pieces { open: Some((o, v.take(n))), ..before }),
    decreases n,
{
    if n > 0 {
        lemma_block_texts_read(segs, at, before, o, v, n - 1);
        let t = v[n - 1];
        assert(segs[at + (n - 1)] == t);
        assert(clean_word(t));
        let c = CandText { text: t, annotation: None };
        lemma_cand_reads_back(c);
        lemma_take_next(v, n - 1);
    } else {
        assert(v.take(0) =~= seq![]);
    }
}

/// One okurigana is read back.
proof fn lemma_block_reads_back(
    segs: Seq<Seq<char>>,
    at: int,
    before: Pieces,
    o: Seq<char>,
    v: Seq<Seq<char>>,
)
    requires
        0 <= at,
        at + v.len() + 2 <= segs.len(),
        segs.subrange(at, at + v.len() + 2) == block_pieces(o, v),
        pieces_read(segs, at) == before,
        before.open is None,
        o.len() > 0,
        v.len() > 0,
        forall|i: int| 0 <= i < v.len() ==> clean_word(#[trigger] v[i]),
    ensures
        pieces_read(segs, at + v.len() + 2) == (Pieces {
            blocks: before.blocks.insert(o, v),
            ..before
        }),
{
    let part = segs.subrange(at, at + v.len() + 2);
    let p = block_pieces(o, v);
    let head = seq!['['] + o;
    assert(part[0] == segs[at] && p[0] == head);
    assert(head[0] == '[');
    assert(head.skip(1) =~= o);
    assert(pieces_read(segs, at + 1) == piece_read(before, head));
    assert forall|i: int| 0 <= i < v.len() implies #[trigger] segs[at + 1 + i] == v[i] by {
        assert(part[1 + i] == segs[at + 1 + i]);
        assert(p[1 + i] == v[i]);
    }
    lemma_block_texts_read(segs, at + 1, before, o, v, v.len() as int);
    assert(v.take(v.len() as int) =~= v);
    let last = at + v.len() + 1;
    assert(segs[last] == seq![']']) by {
        assert(part[v.len() as int + 1] == segs[last]);
        assert(p[v.len() as int + 1] == seq![']']);
    }
    assert(pieces_read(segs, last + 1) == piece_read(pieces_read(segs, last), segs[last]));
}

/// The okurigana of the first `n` keys.
spec fn blocks_upto(b: Blocks, keys: Seq<Seq<char>>, n: int) -> Blocks {
    Map::new(|o: Seq<char>| keys.take(n).contains(o), |o: Seq<char>| b[o])
}

proof fn lemma_blocks_read_back(
    segs: Seq<Seq<char>>,
    first: Pieces,
    at: int,
    b: Blocks,
    keys: Seq<Seq<char>>,
    n: int,
)
    requires
        clean_blocks(b),
        0 <= n <= keys.len(),
        forall|i: int| 0 <= i < keys.len() ==> b.dom().contains(#[trigger] keys[i]),
        0 <= at,
        first.blocks == Map::<Seq<char>, Seq<Seq<char>>>::empty(),
        first.open is None,
        pieces_read(segs, at) == first,
        at + blocks_pieces(b, keys, n).len() <= segs.len(),
        segs.subrange(at, at + blocks_pieces(b, keys, n).len()) == blocks_pieces(b, keys, n),
    ensures
        pieces_read(segs, at + blocks_pieces(b, keys, n).len()) == (Pieces {
            blocks: blocks_upto(b, keys, n),
            ..first
        }),
    decreases n,
{
    if n > 0 {
        let o = keys[n - 1];
        let v = b[o];
        let most = blocks_pieces(b, keys, n - 1);
        let all = blocks_pieces(b, keys, n);
        let part = segs.subrange(at, at + all.len());
        assert(b.dom().contains(o));
        assert(segs.subrange(at, at + most.len()) =~= most) by {
            assert forall|i: int| 0 <= i < most.len() implies segs[at + i] == most[i] by {
                assert(part[i] == segs[at + i]);
                assert(all[i] == most[i]);
            }
        }
        lemma_blocks_read_back(segs, first, at, b, keys, n - 1);
        let mid = at + most.len();
        let p = block_pieces(o, v);
        assert(p.len() == v.len() + 2);
        assert(segs.subrange(mid, mid + v.len() + 2) =~= p) by {
            assert forall|i: int| 0 <= i < p.len() implies segs[mid + i] == p[i] by {
                assert(part[most.len() + i] == segs[mid + i]);
                assert(all[most.len() + i] == p[i]);
            }
        }
        let before = Pieces { blocks: blocks_upto(b, keys, n - 1), ..first };
        lemma_block_reads_back(segs, mid, before, o, v);
        lemma_take_next(keys, n - 1);
        assert(blocks_upto(b, keys, n - 1).insert(o, v) =~= blocks_upto(b, keys, n)) by {
            assert forall|k: Seq<char>| keys.take(n).contains(k) <==> keys.take(n - 1).contains(k)
                || k == o by {
                crate::order::lemma_push_contains(keys.take(n - 1), o, k);
            }
        }
    } else {
        assert(blocks_upto(b, keys, 0) =~= Map::<Seq<char>, Seq<Seq<char>>>::empty());
    }
}

pub proof fn lemma_trim_stays(s: Seq<char>)
    requires
        s.len() > 0,
        !whitespace(s[0]),
        !whitespace(s.last()),
    ensures
        trim(s) == s,
{
}

proof fn lemma_blocks_are_plain(b: Blocks, keys: Seq<Seq<char>>, n: int)
    requires
        clean_blocks(b),
        0 <= n <= keys.len(),
        forall|i: int| 0 <= i < keys.len() ==> b.dom().contains(#[trigger] keys[i]),
    ensures
        forall|i: int|
            0 <= i < blocks_pieces(b, keys, n).len() ==> plain_piece(
                #[trigger] blocks_pieces(b, keys, n)[i],
            ),
    decreases n,
{
    if n > 0 {
        lemma_blocks_are_plain(b, keys, n - 1);
        let o = keys[n - 1];
        let v = b[o];
        let most = blocks_pieces(b, keys, n - 1);
        let all = blocks_pieces(b, keys, n);
        let p = block_pieces(o, v);
        assert(b.dom().contains(o));
        assert forall|i: int| 0 <= i < all.len() implies plain_piece(#[trigger] all[i]) by {
            if i < most.len() {
                assert(all[i] == most[i]);
            } else {
                let j = i - most.len();
                assert(all[i] == p[j]);
                if j == 0 {
                    let head = seq!['['] + o;
                    assert(p[0] == head);
                    assert forall|k: int| 0 <= k < head.len() implies head[k] != '/' && head[k]
                        != '\n' by {
                        if k > 0 {
                            assert(head[k] == o[k - 1]);
                        }
                    }
                } else if j <= v.len() {
                    assert(p[j] == v[j - 1]);
                    assert(clean_word(v[j - 1]));
                } else {
                    assert(p[j] == seq![']']);
                }
            }
        }
    }
}

/// All pieces of a line.
spec fn line_pieces(cands: Seq<CandText>, b: Blocks) -> Seq<Seq<char>> {
    let keys = listed(false, b.dom());
    cand_pieces(cands) + blocks_pieces(b, keys, keys.len() as int)
}

proof fn lemma_line_pieces(cands: Seq<CandText>, b: Blocks)
    requires
        clean_cands(cands),
        clean_blocks(b),
    ensures
        forall|i: int|
            0 <= i < line_pieces(cands, b).len() ==> plain_piece(
                #[trigger] line_pieces(cands, b)[i],
            ),
        ({
            let keys = listed(false, b.dom());
            slashed(line_pieces(cands, b)) == cands_written(cands, cands.len() as int)
                + blocks_written(b, keys, keys.len() as int)
        }),
        ({
            let segs = line_pieces(cands, b);
            pieces_read(segs, segs.len() as int) == (Pieces { cands, blocks: b, open: None })
        }),
{
    let keys = listed(false, b.dom());
    lemma_listed_set(false, b.dom());
    assert forall|i: int| 0 <= i < keys.len() implies b.dom().contains(#[trigger] keys[i]) by {
        assert(keys.to_set().contains(keys[i]));
    }
    let cp = cand_pieces(cands);
    let bp = blocks_pieces(b, keys, keys.len() as int);
    let segs = line_pieces(cands, b);
    assert(cp.take(cands.len() as int) =~= cp);
    lemma_cands_slashed(cands, cands.len() as int);
    lemma_blocks_slashed(b, keys, keys.len() as int);
    lemma_slashed_joins(cp, bp);
    lemma_blocks_are_plain(b, keys, keys.len() as int);
    assert forall|i: int| 0 <= i < segs.len() implies plain_piece(#[trigger] segs[i]) by {
        if i < cp.len() {
            assert(clean_cand(cands[i]));
            lemma_cand_reads_back(cands[i]);
            assert(segs[i] == cand_written(cands[i]));
        } else {
            assert(segs[i] == bp[i - cp.len()]);
        }
    }
    assert forall|i: int| 0 <= i < cands.len() implies #[trigger] segs[i] == cand_written(
        cands[i],
    ) by {
        assert(segs[i] == cp[i]);
    }
    lemma_cand_pieces_read(cands, segs, cands.len() as int);
    assert(cands.take(cands.len() as int) =~= cands);
    let first = Pieces { cands, blocks: Map::empty(), open: None };
    assert(segs.subrange(cp.len() as int, cp.len() as int + bp.len()) =~= bp);
    lemma_blocks_read_back(segs, first, cp.len() as int, b, keys, keys.len() as int);
    assert(blocks_upto(b, keys, keys.len() as int) =~= b) by {
        assert(keys.take(keys.len() as int) =~= keys);
        assert forall|o: Seq<char>| keys.contains(o) <==> b.dom().contains(o) by {
            assert(keys.to_set().contains(o) <==> b.dom().contains(o));
        }
    }
}

proof fn lemma_slashed_has(v: Seq<Seq<char>>, c: char)
    requires
        c != '/',
        forall|i: int| 0 <= i < v.len() ==> !(#[trigger] v[i]).contains(c),
    ensures
        !slashed(v).contains(c),
    decreases v.len(),
{
    if v.len() > 0 {
        let u = v.drop_last();
        assert forall|i: int| 0 <= i < u.len() implies !(#[trigger] u[i]).contains(c) by {
            assert(u[i] == v[i]);
        }
        lemma_slashed_has(u, c);
        let s = slashed(v);
        let a = slashed(u);
        let w = v.last();
        assert(!v[v.len() - 1].contains(c));
        if s.contains(c) {
            let i = choose|i: int| 0 <= i < s.len() && s[i] == c;
            if i < a.len() {
                assert(a[i] == c);
            } else if i < a.len() + w.len() {
                assert(w[i - a.len()] == c);
            }
        }
    }
}

/// A line that was written says what was written: the reading, its candidates with their
/// annotations, and its okurigana.
pub proof fn law_a_line_reads_back(key: Seq<char>, cands: Seq<CandText>, b: Blocks)
    requires
        clean_key(key),
        cands.len() > 0,
        clean_cands(cands),
        clean_blocks(b),
    ensures
        line_read(line_written(key, cands, b)) == Some(LineText { key, cands, blocks: b }),
        !line_written(key, cands, b).contains('\n'),
        line_written(key, cands, b).last() == '/',
{
    let line = line_written(key, cands, b);
    let segs = line_pieces(cands, b);
    lemma_line_pieces(cands, b);
    let x = slashed(segs);
    assert(segs.len() > 0);
    assert forall|i: int| 0 <= i < segs.len() implies !(#[trigger] segs[i]).contains('/') by {
        assert(plain_piece(segs[i]));
    }
    assert forall|i: int| 0 <= i < segs.len() implies !(#[trigger] segs[i]).contains('\n') by {
        assert(plain_piece(segs[i]));
    }
    lemma_slashed_splits(segs);
    lemma_slashed_has(segs, '\n');
    assert(line =~= key + seq![' ', '/'] + x);
    let n = key.len() as int;
    assert(line[n] == ' ');
    assert forall|j: int| 0 <= j < n implies line[j] != ' ' by {
        assert(line[j] == key[j]);
    }
    lemma_is_first_at(line, ' ', n);
    assert(line.take(n) =~= key);
    let rest = line.skip(n + 1);
    assert(rest =~= seq!['/'] + x);
    assert(rest.last() == x.last());
    lemma_trim_stays(rest);
    assert(without_first_slash(rest) =~= x);
    assert(without_last_slash(x) =~= x.drop_last());
    assert(line[0] == key[0]);
    assert forall|j: int| 0 <= j < line.len() implies line[j] != '\n' by {
        if j < n {
            assert(line[j] == key[j]);
        } else if j >= n + 2 {
            assert(line[j] == x[j - n - 2]);
        }
    }
    assert(line.last() == x.last());
}

/// Whether a text ends where a line ends.
pub open spec fn at_line_start(a: Seq<char>) -> bool {
    a.len() == 0 || a.last() == '\n'
}

/// A line behind whole lines is one line more.
proof fn lemma_lines_push(a: Seq<char>, x: Seq<char>)
    requires
        at_line_start(a),
        !x.contains('\n'),
        x.len() > 0,
        x.last() != '\r',
    ensures
        lines(a + x + seq!['\n']) == lines(a).push(x),
    decreases a.len(),
{
    let s = a + x + seq!['\n'];
    let n = first_at(a, '\n') as int;
    lemma_first_at(a, '\n');
    if a.len() == 0 {
        assert(s =~= x + seq!['\n']);
        assert forall|j: int| 0 <= j < x.len() implies s[j] != '\n' by {
            assert(s[j] == x[j]);
        }
        assert(s[x.len() as int] == '\n');
        lemma_is_first_at(s, '\n', x.len() as int);
        assert(s.take(x.len() as int) =~= x);
        assert(s.skip(x.len() as int + 1) =~= seq![]);
        let none: Seq<char> = seq![];
        assert(lines(none) =~= seq![]);
        assert(lines(s) =~= seq![x]);
        assert(lines(a) =~= seq![]);
        assert(lines(s) =~= lines(a).push(x));
    } else {
        assert(a[a.len() - 1] == '\n');
        assert(n < a.len());
        assert(s =~= a + (x + seq!['\n']));
        lemma_first_stays(a, x + seq!['\n'], '\n');
        let rest = a.skip(n + 1);
        assert(s.skip(n + 1) =~= rest + x + seq!['\n']);
        assert(s.take(n) =~= a.take(n));
        lemma_lines_push(rest, x);
        assert(lines(s) =~= lines(a).push(x));
    }
}

/// A line behind whole lines is taken in last.
pub proof fn lemma_line_loaded_last(d: Loaded, a: Seq<char>, x: Seq<char>)
    requires
        at_line_start(a),
        !x.contains('\n'),
        x.len() > 0,
        x.last() != '\r',
    ensures
        text_loaded(d, a + x + seq!['\n']) == line_loaded(text_loaded(d, a), x),
{
    lemma_lines_push(a, x);
    let v = lines(a);
    let w = v.push(x);
    lemma_lines_same(d, v, w, v.len() as int);
    assert(w[v.len() as int] == x);
}

proof fn lemma_lines_same(d: Loaded, v: Seq<Seq<char>>, w: Seq<Seq<char>>, n: int)
    requires
        0 <= n <= v.len(),
        n <= w.len(),
        forall|i: int| 0 <= i < n ==> v[i] == w[i],
    ensures
        lines_loaded(d, v, n) == lines_loaded(d, w, n),
    decreases n,
{
    if n > 0 {
        lemma_lines_same(d, v, w, n - 1);
    }
}

/// The part of a dictionary whose readings are among the first `n` of a list and do, or do
/// not, have okurigana, or are among the whole list and do have it.
spec fn part_of(d: Loaded, keys: Seq<Seq<char>>, ari: bool, n: int) -> Loaded {
    let inside = |k: Seq<char>|
        if okuri_ari(k) == ari {
            keys.take(n).contains(k)
        } else {
            !ari && keys.contains(k)
        };
    Loaded {
        words: Map::new(
            |k: Seq<char>| d.words.dom().contains(k) && inside(k),
            |k: Seq<char>| d.words[k],
        ),
        okuri: Map::new(
            |k: Seq<char>| d.okuri.dom().contains(k) && inside(k),
            |k: Seq<char>| d.okuri[k],
        ),
    }
}

proof fn lemma_all_new(v: Seq<CandText>, n: int)
    requires
        clean_cands(v),
        0 <= n <= v.len(),
    ensures
        cands_added_upto(seq![], v, n) == v.take(n),
    decreases n,
{
    if n > 0 {
        lemma_all_new(v, n - 1);
        let w = v.take(n - 1);
        lemma_take_next(v, n - 1);
        if has_cand(w, v[n - 1].text) {
            let k = choose|k: int| 0 <= k < w.len() && (#[trigger] w[k]).text == v[n - 1].text;
            assert(v[k].text == v[n - 1].text);
        }
    } else {
        assert(v.take(0) =~= seq![]);
    }
}

proof fn lemma_all_texts_new(v: Seq<Seq<char>>, n: int)
    requires
        v.no_duplicates(),
        0 <= n <= v.len(),
    ensures
        texts_added_upto(seq![], v, n) == v.take(n),
    decreases n,
{
    if n > 0 {
        lemma_all_texts_new(v, n - 1);
        let w = v.take(n - 1);
        lemma_take_next(v, n - 1);
        if w.contains(v[n - 1]) {
            let k = choose|k: int| 0 <= k < w.len() && w[k] == v[n - 1];
            assert(v[k] == v[n - 1]);
        }
    } else {
        assert(v.take(0) =~= seq![]);
    }
}

/// The okurigana that are written for a reading.
spec fn blocks_for(d: Loaded, k: Seq<char>) -> Blocks {
    if okuri_ari(k) {
        okuri_entry(d.okuri, k)
    } else {
        Map::empty()
    }
}

proof fn lemma_blocks_new(b: Blocks)
    requires
        clean_blocks(b),
    ensures
        blocks_added(Map::empty(), b) == b,
{
    let none: Blocks = Map::empty();
    assert forall|o: Seq<char>| b.dom().contains(o) implies texts_added(
        block_entry(none, o),
        b[o],
    ) == b[o] by {
        lemma_all_texts_new(b[o], b[o].len() as int);
        assert(b[o].take(b[o].len() as int) =~= b[o]);
        assert(block_entry(none, o) =~= seq![]);
    }
    assert(blocks_added(none, b) =~= b);
}

/// One reading more is taken in.
proof fn lemma_entry_loaded(d: Loaded, keys: Seq<Seq<char>>, ari: bool, n: int)
    requires
        writable(d),
        keys == listed(false, d.words.dom()),
        0 < n <= keys.len(),
        okuri_ari(keys[n - 1]) == ari,
    ensures
        ({
            let k = keys[n - 1];
            line_loaded(
                part_of(d, keys, ari, n - 1),
                line_written(k, d.words[k], blocks_for(d, k)),
            ) == part_of(d, keys, ari, n)
        }),
{
    let k = keys[n - 1];
    let b = blocks_for(d, k);
    let had = part_of(d, keys, ari, n - 1);
    let now = part_of(d, keys, ari, n);
    lemma_listed_set(false, d.words.dom());
    assert(keys.to_set().contains(k));
    assert(d.words.dom().contains(k));
    let v = d.words[k];
    if !d.okuri.dom().contains(k) {
        assert(b =~= Map::<Seq<char>, Seq<Seq<char>>>::empty());
    }
    assert(clean_blocks(b));
    law_a_line_reads_back(k, v, b);
    lemma_take_next(keys, n - 1);
    assert(!keys.take(n - 1).contains(k)) by {
        let some = keys.take(n - 1);
        if some.contains(k) {
            let j = choose|j: int| 0 <= j < some.len() && some[j] == k;
            lemma_before(false);
            assert(before(false, keys[j], keys[n - 1]));
        }
    }
    assert(!had.words.dom().contains(k));
    assert(!had.okuri.dom().contains(k));
    lemma_all_new(v, v.len() as int);
    assert(v.take(v.len() as int) =~= v);
    assert(entry(had.words, k) =~= seq![]);
    lemma_blocks_new(b);
    assert forall|x: Seq<char>| keys.take(n).contains(x) <==> keys.take(n - 1).contains(x) || x
        == k by {
        crate::order::lemma_push_contains(keys.take(n - 1), k, x);
    }
    let next = line_loaded(had, line_written(k, v, b));
    assert(next.words =~= now.words);
    if b.dom().is_empty() {
        assert(!d.okuri.dom().contains(k)) by {
            if d.okuri.dom().contains(k) {
                assert(okuri_ari(k));
                assert(b == d.okuri[k]);
            }
        }
        assert(next.okuri =~= now.okuri);
    } else {
        assert(d.okuri.dom().contains(k));
        assert(okuri_entry(had.okuri, k) =~= Map::<Seq<char>, Seq<Seq<char>>>::empty());
        assert(next.okuri =~= now.okuri);
    }
}

/// The readings up to one are taken in.
proof fn lemma_entries_loaded(d: Loaded, start: Seq<char>, keys: Seq<Seq<char>>, ari: bool, n: int)
    requires
        writable(d),
        keys == listed(false, d.words.dom()),
        0 <= n <= keys.len(),
        at_line_start(start),
        text_loaded(nothing_loaded(), start) == part_of(d, keys, ari, 0),
    ensures
        at_line_start(start + entries_written(d, keys, ari, n)),
        text_loaded(nothing_loaded(), start + entries_written(d, keys, ari, n)) == part_of(
            d,
            keys,
            ari,
            n,
        ),
    decreases n,
{
    let all = start + entries_written(d, keys, ari, n);
    if n > 0 {
        lemma_entries_loaded(d, start, keys, ari, n - 1);
        let k = keys[n - 1];
        let most = start + entries_written(d, keys, ari, n - 1);
        lemma_listed_set(false, d.words.dom());
        assert(keys.to_set().contains(k));
        assert(d.words.dom().contains(k));
        lemma_take_next(keys, n - 1);
        if okuri_ari(k) != ari {
            let a = part_of(d, keys, ari, n - 1);
            let b = part_of(d, keys, ari, n);
            assert forall|x: Seq<char>| okuri_ari(x) == ari implies (keys.take(n).contains(x)
                <==> keys.take(n - 1).contains(x)) by {
                crate::order::lemma_push_contains(keys.take(n - 1), k, x);
            }
            assert(a.words =~= b.words);
            assert(a.okuri =~= b.okuri);
        } else {
            let b = blocks_for(d, k);
            let v = d.words[k];
            if !d.okuri.dom().contains(k) {
                assert(b =~= Map::<Seq<char>, Seq<Seq<char>>>::empty());
            }
            assert(clean_blocks(b));
            law_a_line_reads_back(k, v, b);
            let line = line_written(k, v, b);
            assert(entry_written(k, v, b) =~= line + seq!['\n']);
            assert(all =~= most + line + seq!['\n']);
            lemma_line_loaded_last(nothing_loaded(), most, line);
            lemma_entry_loaded(d, keys, ari, n);
        }
    } else {
        assert(all =~= start);
    }
}

/// A comment is not taken in.
pub proof fn lemma_comment_loaded(d: Loaded, a: Seq<char>, line: Seq<char>)
    requires
        at_line_start(a),
        line.len() > 1,
        line[0] == ';',
        line.last() == '\n',
        !line.drop_last().contains('\n'),
        line.drop_last().last() != '\r',
    ensures
        at_line_start(a + line),
        text_loaded(d, a + line) == text_loaded(d, a),
{
    let x = line.drop_last();
    assert(line =~= x + seq!['\n']);
    assert(a + line =~= a + x + seq!['\n']);
    lemma_line_loaded_last(d, a, x);
    assert(x[0] == ';');
    assert(line_read(x) is None);
}

/// A dictionary that was written is read back whole.
pub proof fn law_a_dictionary_reads_back(d: Loaded)
    requires
        writable(d),
    ensures
        text_loaded(nothing_loaded(), dict_written(d)) == d,
{
    let keys = listed(false, d.words.dom());
    lemma_listed_set(false, d.words.dom());
    let none: Seq<char> = seq![];
    let c1 = ";; -*- mode: fundamental; coding: utf-8 -*-\n"@;
    let c2 = ";; ttyskk 利用者辞書\n"@;
    let c3 = ";; okuri-ari entries.\n"@;
    let c4 = ";; okuri-nasi entries.\n"@;
    lemma_comments();
    assert(lines(none) =~= seq![]);
    assert(text_loaded(nothing_loaded(), none) == nothing_loaded());
    assert(none + c1 =~= c1);
    lemma_comment_loaded(nothing_loaded(), none, c1);
    lemma_comment_loaded(nothing_loaded(), c1, c2);
    lemma_comment_loaded(nothing_loaded(), c1 + c2, c3);
    let start = c1 + c2 + c3;
    let empty = part_of(d, keys, true, 0);
    assert(keys.take(0) =~= seq![]);
    assert(empty.words =~= nothing_loaded().words);
    assert(empty.okuri =~= nothing_loaded().okuri);
    lemma_entries_loaded(d, start, keys, true, keys.len() as int);
    let half = start + entries_written(d, keys, true, keys.len() as int);
    lemma_comment_loaded(nothing_loaded(), half, c4);
    assert(keys.take(keys.len() as int) =~= keys);
    let a = part_of(d, keys, true, keys.len() as int);
    let b = part_of(d, keys, false, 0);
    assert(a.words =~= b.words);
    assert(a.okuri =~= b.okuri);
    lemma_entries_loaded(d, half + c4, keys, false, keys.len() as int);
    let all = part_of(d, keys, false, keys.len() as int);
    assert forall|k: Seq<char>| keys.contains(k) <==> d.words.dom().contains(k) by {
        assert(keys.to_set().contains(k) <==> d.words.dom().contains(k));
    }
    assert(all.words =~= d.words);
    assert(all.okuri =~= d.okuri);
    assert(dict_written(d) =~= half + c4 + entries_written(d, keys, false, keys.len() as int));
}

pub proof fn lemma_comments()
    ensures
        ({
            let c1 = ";; -*- mode: fundamental; coding: utf-8 -*-\n"@;
            let c2 = ";; ttyskk 利用者辞書\n"@;
            let c3 = ";; okuri-ari entries.\n"@;
            let c4 = ";; okuri-nasi entries.\n"@;
            &&& c1.len() > 1 && c1[0] == ';' && c1.last() == '\n' && !c1.drop_last().contains('\n')
                && c1.drop_last().last() != '\r'
            &&& c2.len() > 1 && c2[0] == ';' && c2.last() == '\n' && !c2.drop_last().contains('\n')
                && c2.drop_last().last() != '\r'
            &&& c3.len() > 1 && c3[0] == ';' && c3.last() == '\n' && !c3.drop_last().contains('\n')
                && c3.drop_last().last() != '\r'
            &&& c4.len() > 1 && c4[0] == ';' && c4.last() == '\n' && !c4.drop_last().contains('\n')
                && c4.drop_last().last() != '\r'
        }),
{
    reveal_strlit(";; -*- mode: fundamental; coding: utf-8 -*-\n");
    reveal_strlit(";; ttyskk 利用者辞書\n");
    reveal_strlit(";; okuri-ari entries.\n");
    reveal_strlit(";; okuri-nasi entries.\n");
}

pub proof fn lemma_utf8_reads_back(t: Seq<char>)
    requires
        t.len() > 0,
        t[0] == ';',
    ensures
        jisyo_text(vstd::utf8::encode_utf8(t)) == t,
{
    let b = vstd::utf8::encode_utf8(t);
    vstd::utf8::encode_utf8_valid_utf8(t);
    vstd::utf8::encode_utf8_decode_utf8(t);
    vstd::utf8::encode_utf8_first_scalar(t);
    assert(b[0] == 0x3b) by {
        let c = t[0] as u32;
        assert(c == 0x3b);
        assert(vstd::utf8::has_width_1_encoding(c));
        assert(vstd::utf8::encode_scalar(c) =~= seq![vstd::utf8::leading_byte_width_1(c)]);
        assert(c & 0x7fu32 == 0x3b) by (bit_vector)
            requires
                c == 0x3b,
        ;
        assert(vstd::utf8::leading_byte_width_1(c) == 0x3b);
        assert(b == vstd::utf8::encode_scalar(c) + vstd::utf8::encode_utf8(t.drop_first()));
    }
}

/// What is saved is what is there when the file is read again.
pub proof fn law_what_is_saved_is_read_again(d: Loaded, file: &Vec<u8>, import: Option<&Vec<u8>>)
    requires
        writable(d),
        file@ == vstd::utf8::encode_utf8(dict_written(d)),
    ensures
        disk_loaded(Some(file), import) == d,
{
    law_a_dictionary_reads_back(d);
    lemma_comments();
    let c1 = ";; -*- mode: fundamental; coding: utf-8 -*-\n"@;
    let t = dict_written(d);
    assert(t[0] == c1[0]);
    lemma_utf8_reads_back(t);
}

} // verus!
