//! The regular expression for words matches each of them.
use vstd::prelude::*;
use vstd::string::*;
use crate::migemo::{
    choices, covered, emitted, escaped, grouped, law_every_word_is_matched,
    law_no_word_is_kept_twice, lemma_same_start, lemma_ways_shrink, meant, rg_text, same_start,
    tails, total, vim_text, ways, word_text, words_added, Headwords, RxText,
};
use crate::text::join;

verus! {

/// Characters as they are written in a dialect, one after the other.
pub open spec fn all_escaped(v: Seq<char>, rx: RxText) -> Seq<char>
    decreases v.len(),
{
    if v.len() == 0 {
        seq![]
    } else {
        escaped(v[0], rx) + all_escaped(v.skip(1), rx)
    }
}

/// Whether an expression matches a text, seen in at most `n` steps: an empty one matches
/// nothing at all; a character matches itself, and what follows the rest; a class matches one
/// of its characters; a group matches what one of its choices matches.
pub open spec fn matches(t: Seq<char>, w: Seq<char>, rx: RxText, n: nat) -> bool
    decreases n,
{
    if n == 0 {
        false
    } else {
        ||| t.len() == 0 && w.len() == 0
        ||| w.len() > 0 && exists|rest: Seq<char>|
            t == #[trigger] (escaped(w[0], rx) + rest) && matches(
                rest,
                w.skip(1),
                rx,
                (n - 1) as nat,
            )
        ||| w.len() == 1 && exists|v: Seq<char>|
            v.contains(w[0]) && t == rx.start_class + #[trigger] all_escaped(v, rx) + rx.end_class
        ||| exists|v: Seq<Seq<char>>, i: int|
            0 <= i < v.len() && t == #[trigger] grouped(v, rx) && matches(
                #[trigger] v[i],
                w,
                rx,
                (n - 1) as nat,
            )
    }
}

/// Whether of any two words neither is the beginning of the other.
pub open spec fn apart(words: Seq<Seq<char>>) -> bool {
    forall|i: int, j: int|
        0 <= i < words.len() && 0 <= j < words.len() && i != j ==> !(#[trigger] words[
            i
        ]).is_prefix_of(#[trigger] words[j])
}

/// The characters with nothing behind them.
spec fn singles_of(words: Seq<Seq<char>>, rx: RxText) -> Seq<char>
    decreases words.len(),
    via singles_decreases
{
    if words.len() == 0 || words[0].len() == 0 {
        seq![]
    } else {
        let n = same_start(words, 1);
        let rest = emitted(tails(words.take(n)), rx);
        let later = singles_of(words.skip(n), rx);
        if rest.len() == 0 {
            seq![words[0][0]] + later
        } else {
            later
        }
    }
}

#[via_fn]
proof fn singles_decreases(words: Seq<Seq<char>>, rx: RxText) {
    if words.len() > 0 && words[0].len() > 0 {
        lemma_same_start(words, 1);
    }
}

proof fn lemma_singles(words: Seq<Seq<char>>, rx: RxText)
    ensures
        ways(words, rx).singles == all_escaped(singles_of(words, rx), rx),
        ways(words, rx).count == singles_of(words, rx).len(),
    decreases words.len(),
{
    if words.len() > 0 && words[0].len() > 0 {
        lemma_same_start(words, 1);
        let n = same_start(words, 1);
        lemma_singles(words.skip(n), rx);
        let rest = emitted(tails(words.take(n)), rx);
        let later = singles_of(words.skip(n), rx);
        if rest.len() == 0 {
            let all = seq![words[0][0]] + later;
            assert(all.skip(1) =~= later);
        }
    }
}

proof fn lemma_apart_parts(words: Seq<Seq<char>>, n: int)
    requires
        apart(words),
        0 <= n <= words.len(),
    ensures
        apart(words.take(n)),
        apart(words.skip(n)),
{
    let a = words.take(n);
    let b = words.skip(n);
    assert forall|i: int, j: int| 0 <= i < a.len() && 0 <= j < a.len() && i != j implies !(
    #[trigger] a[i]).is_prefix_of(#[trigger] a[j]) by {
        assert(!words[i].is_prefix_of(words[j]));
    }
    assert forall|i: int, j: int| 0 <= i < b.len() && 0 <= j < b.len() && i != j implies !(
    #[trigger] b[i]).is_prefix_of(#[trigger] b[j]) by {
        assert(!words[n + i].is_prefix_of(words[n + j]));
    }
}

proof fn lemma_apart_tails(g: Seq<Seq<char>>, c: char)
    requires
        apart(g),
        forall|i: int| 0 <= i < g.len() ==> (#[trigger] g[i]).len() > 0 && g[i][0] == c,
    ensures
        apart(tails(g)),
{
    let t = tails(g);
    assert forall|i: int, j: int| 0 <= i < t.len() && 0 <= j < t.len() && i != j implies !(
    #[trigger] t[i]).is_prefix_of(#[trigger] t[j]) by {
        if t[i].is_prefix_of(t[j]) {
            assert(t[i] == g[i].skip(1) && t[j] == g[j].skip(1));
            assert(g[i].len() > 0 && g[j].len() > 0);
            let p = g[i].len() as int;
            assert(g[i] =~= g[j].subrange(0, p)) by {
                assert forall|k: int| 0 <= k < p implies g[i][k] == g[j][k] by {
                    if k > 0 {
                        assert(t[i][k - 1] == t[j].subrange(0, p - 1)[k - 1]);
                        assert(t[i][k - 1] == g[i][k]);
                        assert(t[j][k - 1] == g[j][k]);
                    }
                }
            }
            assert(g[i].is_prefix_of(g[j]));
        }
    }
}

/// An expression for something is not empty.
proof fn lemma_not_empty(words: Seq<Seq<char>>, rx: RxText)
    requires
        words.len() > 0,
        words[0].len() > 0,
    ensures
        emitted(words, rx).len() > 0,
        choices(ways(words, rx), rx).len() > 0,
{
    lemma_same_start(words, 1);
    let n = same_start(words, 1);
    let w = ways(words, rx);
    let later = ways(words.skip(n), rx);
    let head = escaped(words[0][0], rx);
    let rest = emitted(tails(words.take(n)), rx);
    let v = choices(w, rx);
    assert(head.len() > 0);
    if rest.len() == 0 {
        assert(w.count > 0);
        assert(w.singles.len() > 0);
        assert(v[0].len() > 0);
    } else {
        assert(w.branches[0] == head + rest);
        assert(w.branches.len() > 0);
        let at = v.len() - w.branches.len();
        assert(v[at] == w.branches[0]);
        if v.len() == 1 {
            assert(v[0] == head + rest);
        }
    }
    if v.len() > 1 {
        lemma_some_choice(v, rx);
        if rest.len() > 0 {
            let at = v.len() - w.branches.len();
            lemma_join_long(v, rx.or, at);
        } else {
            lemma_join_long(v, rx.or, 0);
        }
    }
}

proof fn lemma_some_choice(v: Seq<Seq<char>>, rx: RxText)
    ensures
        grouped(v, rx).len() >= join(v, rx.or).len(),
{
}

proof fn lemma_join_long(v: Seq<Seq<char>>, sep: Seq<char>, i: int)
    requires
        0 <= i < v.len(),
    ensures
        join(v, sep).len() >= v[i].len(),
    decreases v.len(),
{
    if v.len() > 1 && i < v.len() - 1 {
        lemma_join_long(v.drop_last(), sep, i);
        assert(v.drop_last()[i] == v[i]);
    }
}

/// Each word is a character with nothing behind it, or is matched by a branch.
proof fn lemma_way_of(words: Seq<Seq<char>>, rx: RxText, k: int) -> (n: nat)
    requires
        apart(words),
        0 <= k < words.len(),
        words[0].len() > 0,
    ensures
        (words[k].len() == 1 && singles_of(words, rx).contains(words[k][0])) || exists|b: int|
            0 <= b < ways(words, rx).branches.len() && #[trigger] matches(
                ways(words, rx).branches[b],
                words[k],
                rx,
                n,
            ),
    decreases total(words), words.len(), 0int,
{
    lemma_same_start(words, 1);
    lemma_ways_shrink(words);
    let m = same_start(words, 1);
    let g = words.take(m);
    let c = words[0][0];
    let t = tails(g);
    let rest = emitted(t, rx);
    let later = words.skip(m);
    let w = words[k];
    let all = ways(words, rx);
    lemma_apart_parts(words, m);
    assert forall|i: int| 0 <= i < g.len() implies (#[trigger] g[i]).len() > 0 && g[i][0] == c by {
        assert(g[i] == words[i]);
    }
    if k < m {
        lemma_apart_tails(g, c);
        assert(t[k] == w.skip(1));
        assert(w[0] == c);
        if rest.len() == 0 {
            if t[0].len() > 0 {
                lemma_not_empty(t, rx);
            }
            if k != 0 {
                assert(t[0] =~= t[k].subrange(0, 0));
                assert(t[0].is_prefix_of(t[k]));
            }
            assert(w.len() == 1);
            let s = singles_of(words, rx);
            assert(s[0] == c);
            0
        } else {
            let n = lemma_matched(t, rx, k);
            let b = escaped(c, rx) + rest;
            assert(all.branches[0] == b);
            assert(matches(rest, w.skip(1), rx, n));
            assert(matches(b, w, rx, n + 1));
            n + 1
        }
    } else {
        assert(later[k - m] == w);
        if later[0].len() == 0 {
            assert(later[0] == words[m]);
            assert(words[m] =~= words[0].subrange(0, 0));
            assert(words[m].is_prefix_of(words[0]));
        }
        let n = lemma_way_of(later, rx, k - m);
        let more = ways(later, rx);
        if w.len() == 1 && singles_of(later, rx).contains(w[0]) {
            let s = singles_of(later, rx);
            let i = choose|i: int| 0 <= i < s.len() && s[i] == w[0];
            let all_s = singles_of(words, rx);
            if rest.len() == 0 {
                assert(all_s[i + 1] == w[0]);
            } else {
                assert(all_s == s);
            }
        } else {
            let b = choose|b: int|
                0 <= b < more.branches.len() && #[trigger] matches(more.branches[b], w, rx, n);
            if rest.len() == 0 {
                assert(all.branches[b] == more.branches[b]);
                assert(matches(all.branches[b], w, rx, n));
            } else {
                assert(all.branches[b + 1] == more.branches[b]);
                assert(matches(all.branches[b + 1], w, rx, n));
            }
        }
        n
    }
}

/// Each word is matched by one of the choices.
proof fn lemma_choice_of(words: Seq<Seq<char>>, rx: RxText, k: int) -> (r: (int, nat))
    requires
        apart(words),
        0 <= k < words.len(),
        words[0].len() > 0,
    ensures
        ({
            let v = choices(ways(words, rx), rx);
            0 <= r.0 < v.len() && matches(v[r.0], words[k], rx, r.1)
        }),
    decreases total(words), words.len(), 1int,
{
    let n = lemma_way_of(words, rx, k);
    lemma_singles(words, rx);
    let all = ways(words, rx);
    let v = choices(all, rx);
    let w = words[k];
    let s = singles_of(words, rx);
    if w.len() == 1 && s.contains(w[0]) {
        let none: Seq<char> = seq![];
        if s.len() == 1 {
            assert(s =~= seq![w[0]]);
            assert(s.skip(1) =~= none);
            assert(all_escaped(none, rx) =~= none);
            assert(v[0] =~= escaped(w[0], rx) + none);
            assert(w.skip(1) =~= none);
            assert(matches(none, w.skip(1), rx, 1));
            assert(matches(v[0], w, rx, 2));
        } else {
            assert(v[0] == rx.start_class + all_escaped(s, rx) + rx.end_class);
            assert(matches(v[0], w, rx, 2));
        }
        (0, 2)
    } else {
        let b = choose|b: int|
            0 <= b < all.branches.len() && #[trigger] matches(all.branches[b], w, rx, n);
        let at = v.len() - all.branches.len() + b;
        assert(v[at] == all.branches[b]);
        (at, n)
    }
}

proof fn lemma_matched(words: Seq<Seq<char>>, rx: RxText, k: int) -> (n: nat)
    requires
        apart(words),
        0 <= k < words.len(),
    ensures
        matches(emitted(words, rx), words[k], rx, n),
    decreases total(words), words.len(), 2int,
{
    if words[0].len() == 0 {
        if k != 0 {
            assert(words[0] =~= words[k].subrange(0, 0));
            assert(words[0].is_prefix_of(words[k]));
        }
        let v = choices(ways(words, rx), rx);
        assert(v.len() == 0);
        1
    } else {
        let (i, n) = lemma_choice_of(words, rx, k);
        let v = choices(ways(words, rx), rx);
        if v.len() == 1 {
            n
        } else {
            assert(matches(v[i], words[k], rx, n));
            assert(matches(grouped(v, rx), words[k], rx, n + 1));
            n + 1
        }
    }
}

/// The regular expression for words of which none begins another one matches each of them.
pub proof fn law_the_expression_matches_its_words(words: Seq<Seq<char>>, rx: RxText, k: int)
    requires
        apart(words),
        0 <= k < words.len(),
    ensures
        exists|n: nat| #[trigger] matches(emitted(words, rx), words[k], rx, n),
{
    let n = lemma_matched(words, rx, k);
    assert(matches(emitted(words, rx), words[k], rx, n));
}

/// The regular expression for a spelling matches all that the spelling may stand for, or the
/// beginning of it, in every dialect: the spelling itself, its kana, its wide form and the
/// words that are found for it.
pub proof fn law_the_expression_matches_what_is_meant<H: Headwords>(
    word: Seq<char>,
    rx: RxText,
    d: &H,
    limit: nat,
    azik: bool,
    i: int,
)
    requires
        0 <= i < meant(word, d, limit, azik).len(),
    ensures
        exists|w: Seq<char>, n: nat|
            w.is_prefix_of(meant(word, d, limit, azik)[i]) && #[trigger] matches(
                word_text(word, rx, d, limit, azik),
                w,
                rx,
                n,
            ),
{
    let v = meant(word, d, limit, azik);
    let m = v.len() as int;
    let words = words_added(seq![], v, m);
    law_every_word_is_matched(v, m);
    assert(covered(words, v[i]));
    let k = choose|k: int| 0 <= k < words.len() && (#[trigger] words[k]).is_prefix_of(v[i]);
    assert(apart(words)) by {
        assert forall|a: int, b: int|
            0 <= a < words.len() && 0 <= b < words.len() && a != b implies !(#[trigger] words[a]).is_prefix_of(#[trigger] words[b]) by {
            law_no_word_is_kept_twice(v, m, a, b);
        }
    }
    assert(words[0].len() > 0) by {
        assert(v.take(m).contains(words[0]));
        assert(v.take(m) =~= v);
        let x = choose|x: int| 0 <= x < v.len() && v[x] == words[0];
        crate::answers::lemma_meant_is_not_empty(word, d, limit, azik, x);
    }
    let (c, n) = lemma_choice_of(words, rx, k);
    let all = choices(ways(words, rx), rx);
    assert(matches(all[c], words[k], rx, n));
    assert(matches(grouped(all, rx), words[k], rx, n + 1));
    assert(matches(word_text(word, rx, d, limit, azik), words[k], rx, n + 1));
}

/// A character that means something in the dialect of Vim stands behind a backslash, and every
/// other one is written as it is; and so it is in the dialect of ripgrep.
pub proof fn law_special_characters_are_escaped(c: char)
    ensures
        escaped(c, vim_text()) == (if {
            c == '\\' || c == '.' || c == '[' || c == ']' || c == '*' || c == '~' || c == '^'
                || c == '$'
        } {
            seq!['\\', c]
        } else {
            seq![c]
        }),
        escaped(c, rg_text()) == (if {
            c == '\\' || c == '.' || c == '[' || c == ']' || c == '{' || c == '}' || c == '('
                || c == ')' || c == '*' || c == '+' || c == '-' || c == '?' || c == '^'
                || c == '$' || c == '|'
        } {
            seq!['\\', c]
        } else {
            seq![c]
        }),
{
    reveal_strlit("\\.[]*~^$");
    reveal_strlit("\\.[]{}()*+-?^$|");
    let v = vim_text().escape;
    let r = rg_text().escape;
    assert(v =~= seq!['\\', '.', '[', ']', '*', '~', '^', '$']);
    assert(r =~= seq![
        '\\', '.', '[', ']', '{', '}', '(', ')', '*', '+', '-', '?', '^', '$', '|',
    ]);
    assert(v[0] == '\\');
    assert(v[1] == '.');
    assert(v[2] == '[');
    assert(v[3] == ']');
    assert(v[4] == '*');
    assert(v[5] == '~');
    assert(v[6] == '^');
    assert(v[7] == '$');
    assert(r[0] == '\\');
    assert(r[1] == '.');
    assert(r[2] == '[');
    assert(r[3] == ']');
    assert(r[4] == '{');
    assert(r[5] == '}');
    assert(r[6] == '(');
    assert(r[7] == ')');
    assert(r[8] == '*');
    assert(r[9] == '+');
    assert(r[10] == '-');
    assert(r[11] == '?');
    assert(r[12] == '^');
    assert(r[13] == '$');
    assert(r[14] == '|');
}

/// Choices stand between bars, groups between brackets and classes between square ones; in the
/// dialect of Vim what is special is so behind a backslash.
pub proof fn law_dialects_write_alike()
    ensures
        vim_text().or == seq!['\\'] + rg_text().or,
        vim_text().end_group == seq!['\\'] + rg_text().end_group,
        rg_text().or == seq!['|'],
        rg_text().start_group == seq!['(', '?', ':'],
        rg_text().end_group == seq![')'],
        vim_text().start_group == seq!['\\', '%', '('],
        vim_text().start_class == seq!['['],
        vim_text().end_class == seq![']'],
        rg_text().start_class == seq!['['],
        rg_text().end_class == seq![']'],
        vim_text().prefix == seq!['\\', 'm'],
        rg_text().prefix.len() == 0,
{
    reveal_strlit("\\m");
    reveal_strlit("\\|");
    reveal_strlit("\\%(");
    reveal_strlit("\\)");
    reveal_strlit("[");
    reveal_strlit("]");
    reveal_strlit("");
    reveal_strlit("|");
    reveal_strlit("(?:");
    reveal_strlit(")");
    assert(vim_text().or =~= seq!['\\', '|']);
    assert(rg_text().or =~= seq!['|']);
    assert(vim_text().or =~= seq!['\\'] + rg_text().or);
    assert(vim_text().end_group =~= seq!['\\', ')']);
    assert(rg_text().end_group =~= seq![')']);
    assert(vim_text().end_group =~= seq!['\\'] + rg_text().end_group);
    assert(rg_text().start_group =~= seq!['(', '?', ':']);
    assert(vim_text().start_group =~= seq!['\\', '%', '(']);
    assert(vim_text().start_class =~= seq!['[']);
    assert(vim_text().end_class =~= seq![']']);
    assert(vim_text().prefix =~= seq!['\\', 'm']);
}

} // verus!
