//! The places of a snippet: in which order they are visited, and what stands in them.
use vstd::prelude::*;
use vstd::string::*;
use crate::machine::{
    built_upto, choice_place, choice_turned, fill_built, fill_choices, fill_of, fill_place,
    fill_set, fill_value, fill_value_at, first_place, rising, rising_place, seeds_upto, stops_upto,
    Fill,
};
use crate::num::digit_run;
use crate::snippet::{
    bar_close, lemma_decimal_value, pieces, pieces_after, preview, previewed, run_piece, stop_at,
    PieceText,
};
use crate::text::{decimal, digit, join, lemma_is_first_at, lemma_take_next, split};

verus! {

/// Whether a part is the place with a number.
pub open spec fn is_place(p: PieceText, k: nat) -> bool {
    p matches PieceText::Stop { index, default, choices } && index == k
}

/// Whether one of the parts is the place with a number.
pub open spec fn has_place(v: Seq<PieceText>, k: nat) -> bool {
    exists|i: int| 0 <= i < v.len() && is_place(#[trigger] v[i], k)
}

/// Numbers that rise.
pub open spec fn rises(v: Seq<nat>) -> bool {
    forall|i: int, j: int| 0 <= i < j < v.len() ==> #[trigger] v[i] < #[trigger] v[j]
}

proof fn lemma_stops(v: Seq<PieceText>, n: int)
    requires
        0 <= n <= v.len(),
    ensures
        stops_upto(v, n).no_duplicates(),
        forall|k: nat| #[trigger]
            stops_upto(v, n).contains(k) <==> k != 0 && has_place(v.take(n), k),
    decreases n,
{
    let all = stops_upto(v, n);
    if n > 0 {
        lemma_stops(v, n - 1);
        let had = stops_upto(v, n - 1);
        let p = v[n - 1];
        let a = v.take(n - 1);
        let b = v.take(n);
        lemma_take_next(v, n - 1);
        assert forall|k: nat| #[trigger] all.contains(k) <==> k != 0 && has_place(b, k) by {
            assert(has_place(b, k) <==> has_place(a, k) || is_place(p, k)) by {
                if has_place(a, k) {
                    let i = choose|i: int| 0 <= i < a.len() && is_place(#[trigger] a[i], k);
                    assert(b[i] == a[i]);
                }
                if is_place(p, k) {
                    assert(b[n - 1] == p);
                }
                if has_place(b, k) {
                    let i = choose|i: int| 0 <= i < b.len() && is_place(#[trigger] b[i], k);
                    if i < n - 1 {
                        assert(a[i] == b[i]);
                    }
                }
            }
            if let PieceText::Stop { index, default, choices } = p {
                crate::order::lemma_push_contains(had, index, k);
            }
        }
    } else {
        assert(v.take(0) =~= seq![]);
    }
}

proof fn lemma_rising_place(v: Seq<nat>, n: nat)
    requires
        rises(v),
        !v.contains(n),
    ensures
        0 <= rising_place(v, n) <= v.len(),
        forall|i: int| 0 <= i < rising_place(v, n) ==> #[trigger] v[i] < n,
        forall|i: int| rising_place(v, n) <= i < v.len() ==> #[trigger] v[i] > n,
    decreases v.len(),
{
    if v.len() > 0 {
        assert(v.contains(v[v.len() - 1]));
        if v.last() > n {
            let w = v.drop_last();
            assert(!w.contains(n)) by {
                if w.contains(n) {
                    let i = choose|i: int| 0 <= i < w.len() && w[i] == n;
                    assert(v[i] == n);
                }
            }
            assert forall|i: int, j: int| 0 <= i < j < w.len() implies #[trigger] w[i]
                < #[trigger] w[j] by {
                assert(v[i] < v[j]);
            }
            lemma_rising_place(w, n);
            assert forall|i: int| 0 <= i < rising_place(v, n) implies #[trigger] v[i] < n by {
                assert(w[i] < n);
            }
            assert forall|i: int| rising_place(v, n) <= i < v.len() implies #[trigger] v[i] > n by {
                if i < w.len() {
                    assert(w[i] > n);
                }
            }
        } else {
            assert forall|i: int| 0 <= i < v.len() implies #[trigger] v[i] < n by {
                if i < v.len() - 1 {
                    assert(v[i] < v[v.len() - 1]);
                }
            }
        }
    }
}

proof fn lemma_rising(v: Seq<nat>, n: int)
    requires
        v.no_duplicates(),
        0 <= n <= v.len(),
    ensures
        rises(rising(v, n)),
        rising(v, n).len() == n,
        forall|k: nat| #[trigger] rising(v, n).contains(k) <==> v.take(n).contains(k),
    decreases n,
{
    if n > 0 {
        lemma_rising(v, n - 1);
        let had = rising(v, n - 1);
        let x = v[n - 1];
        lemma_take_next(v, n - 1);
        assert(!had.contains(x)) by {
            let some = v.take(n - 1);
            if some.contains(x) {
                let i = choose|i: int| 0 <= i < some.len() && some[i] == x;
                assert(v[i] == x);
            }
        }
        lemma_rising_place(had, x);
        let at = rising_place(had, x);
        let all = had.insert(at, x);
        assert forall|i: int, j: int| 0 <= i < j < all.len() implies #[trigger] all[i]
            < #[trigger] all[j] by {
            let a = if i < at {
                i
            } else {
                i - 1
            };
            let b = if j < at {
                j
            } else {
                j - 1
            };
            if i != at {
                assert(all[i] == had[a]);
            }
            if j != at {
                assert(all[j] == had[b]);
            }
        }
        assert forall|k: nat| #[trigger] all.contains(k) <==> v.take(n).contains(k) by {
            crate::order::lemma_push_contains(v.take(n - 1), x, k);
            if had.contains(k) {
                let i = choose|i: int| 0 <= i < had.len() && had[i] == k;
                if i < at {
                    assert(all[i] == k);
                } else {
                    assert(all[i + 1] == k);
                }
            }
            if all.contains(k) {
                let i = choose|i: int| 0 <= i < all.len() && all[i] == k;
                if i < at {
                    assert(had[i] == k);
                } else if i > at {
                    assert(had[i - 1] == k);
                }
            }
            assert(all[at] == x);
        }
    } else {
        assert(v.take(0) =~= seq![]);
    }
}

/// The places of a snippet are visited by their numbers, each once, beginning with the
/// smallest one. Place 0 is none of them: it is where the cursor stays in the end. A snippet
/// without other places is not filled in.
pub proof fn law_places_are_visited_by_number(body: Seq<char>)
    ensures
        match fill_of(body) {
            Some(f) => {
                &&& f.pieces == pieces(body)
                &&& f.at == 0
                &&& f.order.len() > 0
                &&& rises(f.order)
                &&& forall|k: nat| #[trigger]
                    f.order.contains(k) <==> k != 0 && has_place(pieces(body), k)
            },
            None => forall|k: nat| #[trigger] has_place(pieces(body), k) ==> k == 0,
        },
{
    reveal(fill_of);
    let v = pieces(body);
    let stops = stops_upto(v, v.len() as int);
    lemma_stops(v, v.len() as int);
    assert(v.take(v.len() as int) =~= v);
    lemma_rising(stops, stops.len() as int);
    assert(stops.take(stops.len() as int) =~= stops);
    if stops.len() == 0 {
        assert forall|k: nat| #[trigger] has_place(v, k) implies k == 0 by {
            assert(!stops.contains(k));
        }
    }
}

/// What a place holds before anything is typed: the first of its choices, or its default.
pub open spec fn first_value(p: PieceText) -> Seq<char> {
    match p {
        PieceText::Stop { index, default, choices } => if choices.len() > 0 {
            choices[0]
        } else {
            default
        },
        PieceText::Text(t) => t,
    }
}

proof fn lemma_seeds(v: Seq<PieceText>, n: int, i: int, k: nat)
    requires
        0 <= n <= v.len(),
        0 <= i < v.len(),
        is_place(v[i], k),
        forall|j: int| 0 <= j < i ==> !is_place(#[trigger] v[j], k),
    ensures
        i < n ==> seeds_upto(v, n).dom().contains(k) && seeds_upto(v, n)[k] == first_value(v[i]),
        i >= n ==> !seeds_upto(v, n).dom().contains(k),
    decreases n,
{
    if n > 0 {
        lemma_seeds(v, n - 1, i, k);
        if n - 1 < i {
            assert(!is_place(v[n - 1], k));
        }
    }
}

/// Where a place is written several times, the first time says what stands in it before
/// anything is typed.
pub proof fn law_places_begin_with_their_defaults(body: Seq<char>, i: int, k: nat)
    requires
        fill_of(body) is Some,
        0 <= i < pieces(body).len(),
        is_place(pieces(body)[i], k),
        forall|j: int| 0 <= j < i ==> !is_place(#[trigger] pieces(body)[j], k),
    ensures
        fill_value_at(fill_of(body)->0, k) == first_value(pieces(body)[i]),
{
    reveal(fill_of);
    let v = pieces(body);
    lemma_seeds(v, v.len() as int, i, k);
}

/// What a part stands for: its text, or what was filled in; place 0 stands for nothing.
pub open spec fn stands_for(f: Fill, p: PieceText) -> Seq<char> {
    match p {
        PieceText::Text(t) => t,
        PieceText::Stop { index, default, choices } => if index == 0 {
            seq![]
        } else {
            fill_value_at(f, index)
        },
    }
}

/// Texts one after the other.
pub open spec fn strung(v: Seq<Seq<char>>) -> Seq<char>
    decreases v.len(),
{
    if v.len() == 0 {
        seq![]
    } else {
        v[0] + strung(v.skip(1))
    }
}

proof fn lemma_strung_push(v: Seq<Seq<char>>, t: Seq<char>)
    ensures
        strung(v.push(t)) == strung(v) + t,
    decreases v.len(),
{
    if v.len() == 0 {
        assert(v.push(t).skip(1) =~= seq![]);
        assert(strung(v.push(t).skip(1)) =~= seq![]);
        assert(strung(v.push(t)) =~= t);
        assert(strung(v) + t =~= t);
    } else {
        lemma_strung_push(v.skip(1), t);
        assert(v.push(t).skip(1) =~= v.skip(1).push(t));
        assert(strung(v.push(t)) =~= strung(v) + t);
    }
}

proof fn lemma_built(f: Fill, n: int)
    requires
        0 <= n <= f.pieces.len(),
    ensures
        built_upto(f, n).0 == strung(f.pieces.take(n).map_values(|p: PieceText| stands_for(f, p))),
    decreases n,
{
    let g = |p: PieceText| stands_for(f, p);
    if n > 0 {
        lemma_built(f, n - 1);
        lemma_take_next(f.pieces, n - 1);
        let a = f.pieces.take(n - 1).map_values(g);
        let p = f.pieces[n - 1];
        assert(f.pieces.take(n).map_values(g) =~= a.push(g(p)));
        lemma_strung_push(a, g(p));
        assert(built_upto(f, n).0 =~= built_upto(f, n - 1).0 + g(p));
    } else {
        assert(f.pieces.take(0).map_values(g) =~= seq![]);
    }
}

/// What is handed out are the parts in the order in which they are written, each place with
/// what was filled in, wherever its number stands.
pub proof fn law_every_place_gets_its_value(f: Fill)
    ensures
        fill_built(f).0 == strung(f.pieces.map_values(|p: PieceText| stands_for(f, p))),
{
    reveal(fill_built);
    lemma_built(f, f.pieces.len() as int);
    assert(f.pieces.take(f.pieces.len() as int) =~= f.pieces);
}

proof fn lemma_built_grows(f: Fill, at: int, n: int)
    requires
        0 <= at < n <= f.pieces.len(),
        is_place(f.pieces[at], 0),
        forall|j: int| at < j < f.pieces.len() ==> !is_place(#[trigger] f.pieces[j], 0),
    ensures
        built_upto(f, n).1 == Some(built_upto(f, at).0.len() as int),
        built_upto(f, at).0.len() <= built_upto(f, n).0.len(),
        built_upto(f, n).0.take(built_upto(f, at).0.len() as int) == built_upto(f, at).0,
    decreases n,
{
    let a = built_upto(f, at).0;
    if n - 1 > at {
        lemma_built_grows(f, at, n - 1);
        assert(!is_place(f.pieces[n - 1], 0));
        assert(built_upto(f, n).0.take(a.len() as int) =~= built_upto(f, n - 1).0.take(
            a.len() as int,
        ));
    } else {
        assert(built_upto(f, n).0 == a);
        assert(a.take(a.len() as int) =~= a);
    }
}

/// The cursor goes back to where place 0 stands: over all that was handed out behind it, if
/// that is one line.
pub proof fn law_the_cursor_goes_to_the_last_place(f: Fill, at: int)
    requires
        0 <= at < f.pieces.len(),
        is_place(f.pieces[at], 0),
        forall|j: int| at < j < f.pieces.len() ==> !is_place(#[trigger] f.pieces[j], 0),
    ensures
        ({
            let (text, back) = fill_built(f);
            let before = strung(f.pieces.take(at).map_values(|p: PieceText| stands_for(f, p)));
            let behind = text.skip(before.len() as int);
            &&& text == before + behind
            &&& behind.contains('\n') ==> back == 0
            &&& !behind.contains('\n') ==> back == behind.len()
        }),
{
    reveal(fill_built);
    let n = f.pieces.len() as int;
    lemma_built_grows(f, at, n);
    lemma_built(f, at);
    let text = built_upto(f, n).0;
    let before = built_upto(f, at).0;
    assert(text =~= before + text.skip(before.len() as int)) by {
        assert(text =~= text.take(before.len() as int) + text.skip(before.len() as int));
    }
}

/// Without a place 0 the cursor stays behind all that was handed out.
pub proof fn law_without_a_last_place_the_cursor_stays(f: Fill)
    requires
        !has_place(f.pieces, 0),
    ensures
        fill_built(f).1 == 0,
{
    reveal(fill_built);
    lemma_no_last(f, f.pieces.len() as int);
}

proof fn lemma_no_last(f: Fill, n: int)
    requires
        !has_place(f.pieces, 0),
        0 <= n <= f.pieces.len(),
    ensures
        built_upto(f, n).1 is None,
    decreases n,
{
    if n > 0 {
        lemma_no_last(f, n - 1);
        assert(!is_place(f.pieces[n - 1], 0));
    }
}

/// What is typed into a place goes there and nowhere else.
pub proof fn law_a_value_goes_to_its_place(f: Fill, t: Seq<char>, k: nat)
    ensures
        fill_value_at(fill_set(f, t), k) == (if k == fill_place(f) {
            t
        } else {
            fill_value_at(f, k)
        }),
        fill_set(f, t).order == f.order,
        fill_set(f, t).at == f.at,
        fill_set(f, t).pieces == f.pieces,
{
}

/// A snippet is shown in advance as it would be handed out untouched, where places with the
/// same number have the same default.
pub proof fn law_the_preview_is_what_would_come(body: Seq<char>)
    requires
        fill_of(body) is Some,
        forall|i: int, j: int, k: nat|
            0 <= i < pieces(body).len() && 0 <= j < pieces(body).len() && #[trigger] is_place(
                pieces(body)[i],
                k,
            ) && #[trigger] is_place(pieces(body)[j], k) ==> first_value(pieces(body)[i])
                == first_value(pieces(body)[j]),
    ensures
        preview(body) == fill_built(fill_of(body)->0).0,
{
    reveal(fill_of);
    reveal(fill_built);
    let f = fill_of(body)->0;
    lemma_preview(body, f, pieces(body).len() as int);
}

proof fn lemma_first_of_place(v: Seq<PieceText>, k: nat, i: int) -> (r: int)
    requires
        0 <= i < v.len(),
        is_place(v[i], k),
    ensures
        0 <= r <= i,
        is_place(v[r], k),
        forall|j: int| 0 <= j < r ==> !is_place(#[trigger] v[j], k),
    decreases i,
{
    if exists|j: int| 0 <= j < i && is_place(#[trigger] v[j], k) {
        let j = choose|j: int| 0 <= j < i && is_place(#[trigger] v[j], k);
        lemma_first_of_place(v, k, j)
    } else {
        i
    }
}

proof fn lemma_preview(body: Seq<char>, f: Fill, n: int)
    requires
        fill_of(body) == Some(f),
        f.pieces == pieces(body),
        0 <= n <= pieces(body).len(),
        forall|i: int, j: int, k: nat|
            0 <= i < pieces(body).len() && 0 <= j < pieces(body).len() && #[trigger] is_place(
                pieces(body)[i],
                k,
            ) && #[trigger] is_place(pieces(body)[j], k) ==> first_value(pieces(body)[i])
                == first_value(pieces(body)[j]),
    ensures
        previewed(pieces(body), n) == built_upto(f, n).0,
    decreases n,
{
    let v = pieces(body);
    if n > 0 {
        lemma_preview(body, f, n - 1);
        match v[n - 1] {
            PieceText::Stop { index, default, choices } => {
                assert(is_place(v[n - 1], index));
                let r = lemma_first_of_place(v, index, n - 1);
                law_places_begin_with_their_defaults(body, r, index);
                assert(is_place(v[r], index));
                if index == 0 {
                    assert(previewed(v, n) =~= previewed(v, n - 1));
                }
            },
            PieceText::Text(_) => {},
        }
    }
}

/// The place of a text in a list of different ones.
proof fn lemma_choice_place(v: Seq<Seq<char>>, i: int)
    requires
        v.no_duplicates(),
        0 <= i < v.len(),
    ensures
        choice_place(v, v[i]) == i,
{
    lemma_first_place(v, v[i], i);
    assert(v.contains(v[i]));
}

proof fn lemma_first_place(v: Seq<Seq<char>>, t: Seq<char>, i: int)
    requires
        v.no_duplicates(),
        0 <= i < v.len(),
        v[i] == t,
    ensures
        first_place(v, t) == i,
    decreases v.len(),
{
    if v[0] != t {
        let w = v.skip(1);
        assert(w.no_duplicates()) by {
            assert forall|a: int, b: int| 0 <= a < w.len() && 0 <= b < w.len() && a != b implies w[a]
                != w[b] by {
                assert(v[a + 1] != v[b + 1]);
            }
        }
        lemma_first_place(w, t, i - 1);
    }
}

/// Turning the choices of a place leads from each to the next one, from the last to the first
/// one, and back again.
pub proof fn law_choices_are_turned(f: Fill, i: int)
    requires
        fill_choices(f).no_duplicates(),
        0 <= i < fill_choices(f).len(),
        fill_value(f) == fill_choices(f)[i],
    ensures
        ({
            let v = fill_choices(f);
            let on = choice_turned(f, false);
            &&& i + 1 < v.len() ==> fill_value(on) == v[i + 1]
            &&& i + 1 == v.len() ==> fill_value(on) == v[0]
            &&& fill_choices(on) == v
            &&& fill_value(choice_turned(on, true)) == fill_value(f)
        }),
{
    reveal(choice_turned);
    reveal(fill_choices);
    let v = fill_choices(f);
    let n = v.len() as int;
    lemma_choice_place(v, i);
    let next = if i + 1 < n {
        i + 1
    } else {
        0
    };
    assert((i + 1) % n == next) by {
        if i + 1 == n {
            vstd::arithmetic::div_mod::lemma_mod_self_0(n);
        } else {
            vstd::arithmetic::div_mod::lemma_small_mod((i + 1) as nat, n as nat);
        }
    }
    let on = choice_turned(f, false);
    assert(fill_value(on) == v[next]);
    lemma_choice_place(v, next);
    assert((next + n - 1) % n == i) by {
        if i + 1 == n {
            vstd::arithmetic::div_mod::lemma_small_mod((n - 1) as nat, n as nat);
        } else {
            vstd::arithmetic::div_mod::lemma_mod_add_multiples_vanish(i, n);
            vstd::arithmetic::div_mod::lemma_small_mod(i as nat, n as nat);
        }
    }
}

/// A text with nothing in it that could begin a place.
pub open spec fn plain_text(s: Seq<char>) -> bool {
    !s.contains('$')
}

proof fn lemma_plain_skips(run: Seq<char>, a: Seq<char>, s: Seq<char>)
    requires
        plain_text(a),
    ensures
        pieces_after(run, a + s) == pieces_after(run + a, s),
    decreases a.len(),
{
    if a.len() == 0 {
        assert(a + s =~= s);
        assert(run + a =~= run);
    } else {
        let t = a + s;
        assert(t[0] == a[0]);
        assert(a.contains(a[0]));
        assert(stop_at(t) is None);
        let b = a.skip(1);
        assert(!b.contains('$')) by {
            if b.contains('$') {
                let i = choose|i: int| 0 <= i < b.len() && b[i] == '$';
                assert(a[i + 1] == '$');
            }
        }
        assert(t.skip(1) =~= b + s);
        lemma_plain_skips(run.push(a[0]), b, s);
        assert(run.push(a[0]) + b =~= run + a);
    }
}

proof fn lemma_digits_end(ds: Seq<char>, s: Seq<char>)
    requires
        forall|i: int| 0 <= i < ds.len() ==> digit(#[trigger] ds[i]),
        s.len() == 0 || !digit(s[0]),
    ensures
        digit_run(ds + s) == ds.len(),
    decreases ds.len(),
{
    if ds.len() == 0 {
        assert(ds + s =~= s);
    } else {
        assert(digit(ds[0]));
        let t = ds.skip(1);
        assert forall|i: int| 0 <= i < t.len() implies digit(#[trigger] t[i]) by {
            assert(t[i] == ds[i + 1]);
        }
        lemma_digits_end(t, s);
        assert((ds + s).skip(1) =~= t + s);
        assert((ds + s)[0] == ds[0]);
    }
}

/// The ways to write a place.
pub open spec fn place_written(p: PieceText, braces: bool) -> Seq<char> {
    match p {
        PieceText::Stop { index, default, choices } => if choices.len() > 0 {
            "${"@ + decimal(index) + "|"@ + join(choices, ","@) + "|}"@
        } else if default.len() > 0 {
            "${"@ + decimal(index) + ":"@ + default + "}"@
        } else if braces {
            "${"@ + decimal(index) + "}"@
        } else {
            "$"@ + decimal(index)
        },
        PieceText::Text(t) => t,
    }
}

/// Whether a place can be written: its default holds no closing brace, and its choices hold
/// neither commas nor what ends them.
pub open spec fn can_be_written(p: PieceText) -> bool {
    p matches PieceText::Stop { index, default, choices } && index <= u32::MAX
        && !default.contains('}') && (choices.len() > 0 ==> default.len() == 0) && (forall|i: int|
        0 <= i < choices.len() ==> !(#[trigger] choices[i]).contains(',') && !choices[i].contains(
            '|',
        ))
}

proof fn lemma_join_splits(v: Seq<Seq<char>>)
    requires
        v.len() > 0,
        forall|i: int|
            0 <= i < v.len() ==> !(#[trigger] v[i]).contains(',') && !v[i].contains('|'),
    ensures
        split(join(v, ","@), ',') == v,
        !join(v, ","@).contains('|'),
    decreases v.len(),
{
    reveal_strlit(",");
    let w = v.last();
    assert(!v[v.len() - 1].contains(','));
    if v.len() == 1 {
        crate::text::lemma_first_of_none(w, ',');
        assert(split(w, ',') =~= seq![w]);
        assert(v =~= seq![w]);
    } else {
        let u = v.drop_last();
        assert forall|i: int| 0 <= i < u.len() implies !(#[trigger] u[i]).contains(',')
            && !u[i].contains('|') by {
            assert(u[i] == v[i]);
        }
        lemma_join_splits(u);
        let a = join(u, ","@);
        assert(","@ =~= seq![',']);
        crate::text::lemma_split_push(a, w, ',');
        assert(u.push(w) =~= v);
        let s = a + seq![','] + w;
        if s.contains('|') {
            let i = choose|i: int| 0 <= i < s.len() && s[i] == '|';
            if i < a.len() {
                assert(a[i] == '|');
            } else if i > a.len() {
                assert(w[i - a.len() - 1] == '|');
            }
        }
    }
}

proof fn lemma_bar_found(a: Seq<char>, s: Seq<char>, i: int)
    requires
        !a.contains('|'),
        0 <= i <= a.len(),
    ensures
        bar_close(a + seq!['|', '}'] + s, i) == a.len(),
    decreases a.len() - i,
{
    let t = a + seq!['|', '}'] + s;
    if i < a.len() {
        assert(t[i] == a[i]);
        assert(a.contains(a[i]));
        lemma_bar_found(a, s, i + 1);
    } else {
        assert(t[i] == '|' && t[i + 1] == '}');
    }
}

proof fn lemma_stop_found(p: PieceText, braces: bool, s: Seq<char>)
    requires
        can_be_written(p),
        !braces ==> s.len() == 0 || !digit(s[0]),
    ensures
        stop_at(place_written(p, braces) + s) == Some((p, place_written(p, braces).len() as int)),
{
    reveal_strlit("${");
    reveal_strlit("$");
    reveal_strlit("|");
    reveal_strlit("|}");
    reveal_strlit(":");
    reveal_strlit("}");
    if let PieceText::Stop { index, default, choices } = p {
        let ds = decimal(index);
        lemma_decimal_value(index);
        let n = ds.len() as int;
        let w = place_written(p, braces);
        let t = w + s;
        if choices.len() == 0 && default.len() == 0 && !braces {
            assert(t.skip(1) =~= ds + s);
            lemma_digits_end(ds, s);
            assert(t.subrange(1, 1 + n) =~= ds);
            assert(t[0] == '$');
            assert(t[1] == ds[0]);
            assert(digit(ds[0]));
            assert(default =~= seq![]);
            assert(choices =~= seq![]);
        } else {
            let tail = t.skip(2 + n);
            assert(t[0] == '$' && t[1] == '{');
            assert(t.skip(2) =~= ds + tail);
            let rest = t.skip(3 + n);
            if choices.len() > 0 {
                let j = join(choices, ","@);
                lemma_join_splits(choices);
                assert(tail[0] == '|');
                lemma_digits_end(ds, tail);
                assert(rest =~= j + seq!['|', '}'] + s);
                lemma_bar_found(j, s, 0);
                assert(rest.take(j.len() as int) =~= j);
                assert(default =~= seq![]);
            } else if default.len() > 0 {
                assert(tail[0] == ':');
                lemma_digits_end(ds, tail);
                assert(rest =~= default + seq!['}'] + s);
                assert forall|i: int| 0 <= i < default.len() implies rest[i] != '}' by {
                    assert(rest[i] == default[i]);
                    assert(default.contains(default[i]));
                }
                assert(rest[default.len() as int] == '}');
                lemma_is_first_at(rest, '}', default.len() as int);
                assert(rest.take(default.len() as int) =~= default);
                assert(choices =~= seq![]);
            } else {
                assert(tail[0] == '}');
                lemma_digits_end(ds, tail);
                assert(default =~= seq![]);
                assert(choices =~= seq![]);
            }
            assert(t.subrange(2, 2 + n) =~= ds);
        }
    }
}

/// Every way to write a place is read as that place, between the text before it and what
/// comes behind it.
pub proof fn law_a_written_place_is_read(a: Seq<char>, p: PieceText, braces: bool, s: Seq<char>)
    requires
        plain_text(a),
        can_be_written(p),
        !braces ==> s.len() == 0 || !digit(s[0]),
    ensures
        pieces(a + place_written(p, braces) + s) == (if a.len() > 0 {
            seq![PieceText::Text(a)]
        } else {
            seq![]
        }) + seq![p] + pieces(s),
{
    let w = place_written(p, braces);
    let none: Seq<char> = seq![];
    assert(a + w + s =~= a + (w + s));
    lemma_plain_skips(none, a, w + s);
    assert(none + a =~= a);
    lemma_stop_found(p, braces, s);
    assert((w + s).skip(w.len() as int) =~= s);
    crate::snippet::lemma_stop_at(w + s);
}

/// A text without a place is one part.
pub proof fn law_plain_text_is_one_part(a: Seq<char>)
    requires
        plain_text(a),
        a.len() > 0,
    ensures
        pieces(a) == seq![PieceText::Text(a)],
{
    let none: Seq<char> = seq![];
    lemma_plain_skips(none, a, none);
    assert(a + none =~= a);
    assert(none + a =~= a);
    assert(pieces_after(a, none) == run_piece(a));
}

} // verus!
