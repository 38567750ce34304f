//! The order of texts, and sorted lists without repetition.
use vstd::prelude::*;

verus! {

/// `a` comes before `b` in the order of code points.
pub open spec fn precedes(a: Seq<char>, b: Seq<char>) -> bool
    decreases a.len(),
{
    if b.len() == 0 {
        false
    } else if a.len() == 0 {
        true
    } else if a[0] == b[0] {
        precedes(a.skip(1), b.skip(1))
    } else {
        a[0] < b[0]
    }
}

/// `a` comes before `b`: in the order of code points, or, where `by_length` says so, the
/// shorter one first and the order of code points among equals.
pub open spec fn before(by_length: bool, a: Seq<char>, b: Seq<char>) -> bool {
    if by_length && a.len() != b.len() {
        a.len() < b.len()
    } else {
        precedes(a, b)
    }
}

/// Each text comes before all that follow it.
pub open spec fn ascending(by_length: bool, s: Seq<Seq<char>>) -> bool {
    forall|i: int, j: int| 0 <= i < j < s.len() ==> before(by_length, #[trigger] s[i], #[trigger] s[j])
}

/// The list that holds the texts of `set` in order, each once.
pub open spec fn listed(by_length: bool, set: Set<Seq<char>>) -> Seq<Seq<char>> {
    choose|s: Seq<Seq<char>>| ascending(by_length, s) && s.to_set() == set
}

/// No text comes before itself.
pub proof fn lemma_precedes_irreflexive(a: Seq<char>)
    ensures
        !precedes(a, a),
    decreases a.len(),
{
    if a.len() > 0 {
        lemma_precedes_irreflexive(a.skip(1));
    }
}

pub proof fn lemma_precedes_transitive(a: Seq<char>, b: Seq<char>, c: Seq<char>)
    requires
        precedes(a, b),
        precedes(b, c),
    ensures
        precedes(a, c),
    decreases a.len(),
{
    if a.len() > 0 && a[0] == b[0] && b[0] == c[0] {
        lemma_precedes_transitive(a.skip(1), b.skip(1), c.skip(1));
    }
}

/// Of two different texts one comes before the other.
pub proof fn lemma_precedes_total(a: Seq<char>, b: Seq<char>)
    ensures
        a == b || precedes(a, b) || precedes(b, a),
    decreases a.len(),
{
    if a.len() > 0 && b.len() > 0 {
        if a[0] == b[0] {
            lemma_precedes_total(a.skip(1), b.skip(1));
            if a.skip(1) == b.skip(1) {
                assert(a =~= seq![a[0]] + a.skip(1));
                assert(b =~= seq![b[0]] + b.skip(1));
            }
        }
    } else if a.len() == 0 && b.len() == 0 {
        assert(a =~= b);
    }
}

pub proof fn lemma_before(by_length: bool)
    ensures
        forall|a: Seq<char>| !#[trigger] before(by_length, a, a),
        forall|a: Seq<char>, b: Seq<char>, c: Seq<char>|
            #[trigger] before(by_length, a, b) && #[trigger] before(by_length, b, c) ==> before(
                by_length,
                a,
                c,
            ),
        forall|a: Seq<char>, b: Seq<char>|
            #![trigger before(by_length, a, b)]
            a == b || before(by_length, a, b) || before(by_length, b, a),
{
    assert forall|a: Seq<char>| !#[trigger] before(by_length, a, a) by {
        lemma_precedes_irreflexive(a);
    }
    assert forall|a: Seq<char>, b: Seq<char>, c: Seq<char>|
        #[trigger] before(by_length, a, b) && #[trigger] before(by_length, b, c) implies before(
        by_length,
        a,
        c,
    ) by {
        if !(by_length && (a.len() != b.len() || b.len() != c.len())) {
            lemma_precedes_transitive(a, b, c);
        }
    }
    assert forall|a: Seq<char>, b: Seq<char>| #![trigger before(by_length, a, b)] a == b || before(by_length, a, b) || before(
        by_length,
        b,
        a,
    ) by {
        lemma_precedes_total(a, b);
    }
}

/// A sorted list without repetition is determined by the texts it holds.
pub proof fn lemma_ascending_unique(by_length: bool, s: Seq<Seq<char>>, t: Seq<Seq<char>>)
    requires
        ascending(by_length, s),
        ascending(by_length, t),
        s.to_set() == t.to_set(),
    ensures
        s == t,
    decreases s.len(),
{
    lemma_before(by_length);
    if s.len() == 0 {
        if t.len() > 0 {
            assert(t.to_set().contains(t[0]));
            assert(s.to_set().contains(t[0]));
        }
        assert(s =~= t);
    } else {
        assert(s.to_set().contains(s[0]));
        assert(t.contains(s[0]));
        assert(t.to_set().contains(t[0]));
        assert(s.contains(t[0]));
        let i = choose|i: int| 0 <= i < t.len() && t[i] == s[0];
        let j = choose|j: int| 0 <= j < s.len() && s[j] == t[0];
        assert(s[0] == t[0]) by {
            if i > 0 && j > 0 {
                assert(before(by_length, t[0], t[i]));
                assert(before(by_length, s[0], s[j]));
            }
        }
        let s1 = s.skip(1);
        let t1 = t.skip(1);
        assert forall|x: Seq<char>| s1.to_set().contains(x) <==> t1.to_set().contains(x) by {
            if s1.contains(x) {
                let k = choose|k: int| 0 <= k < s1.len() && s1[k] == x;
                assert(s[k + 1] == x);
                assert(before(by_length, s[0], s[k + 1]));
                assert(s.to_set().contains(x));
                assert(t.contains(x));
                let m = choose|m: int| 0 <= m < t.len() && t[m] == x;
                assert(m > 0);
                assert(t1[m - 1] == x);
            }
            if t1.contains(x) {
                let k = choose|k: int| 0 <= k < t1.len() && t1[k] == x;
                assert(t[k + 1] == x);
                assert(before(by_length, t[0], t[k + 1]));
                assert(t.to_set().contains(x));
                assert(s.contains(x));
                let m = choose|m: int| 0 <= m < s.len() && s[m] == x;
                assert(m > 0);
                assert(s1[m - 1] == x);
            }
        }
        assert(s1.to_set() =~= t1.to_set());
        lemma_ascending_unique(by_length, s1, t1);
        assert(s =~= seq![s[0]] + s1);
        assert(t =~= seq![t[0]] + t1);
    }
}

/// A sorted list is the one that its texts name.
pub proof fn lemma_listed(by_length: bool, s: Seq<Seq<char>>)
    requires
        ascending(by_length, s),
    ensures
        listed(by_length, s.to_set()) == s,
{
    let t = listed(by_length, s.to_set());
    lemma_ascending_unique(by_length, s, t);
}

/// Every finite set of texts has its list.
pub proof fn lemma_listed_set(by_length: bool, set: Set<Seq<char>>)
    requires
        set.finite(),
    ensures
        ascending(by_length, listed(by_length, set)),
        listed(by_length, set).to_set() == set,
    decreases set.len(),
{
    lemma_list_exists(by_length, set);
}

proof fn lemma_list_exists(by_length: bool, set: Set<Seq<char>>)
    requires
        set.finite(),
    ensures
        exists|s: Seq<Seq<char>>| ascending(by_length, s) && s.to_set() == set,
    decreases set.len(),
{
    if set.len() == 0 {
        set.lemma_len0_is_empty();
        let s = Seq::<Seq<char>>::empty();
        assert(s.to_set() =~= set);
        assert(ascending(by_length, s));
    } else {
        let x = set.choose();
        lemma_list_exists(by_length, set.remove(x));
        let s = choose|s: Seq<Seq<char>>|
            ascending(by_length, s) && s.to_set() == set.remove(x);
        lemma_insert_exists(by_length, s, x);
        let t = choose|t: Seq<Seq<char>>|
            ascending(by_length, t) && t.to_set() == s.to_set().insert(x);
        assert(t.to_set() =~= set);
    }
}

proof fn lemma_insert_exists(by_length: bool, s: Seq<Seq<char>>, x: Seq<char>)
    requires
        ascending(by_length, s),
        !s.to_set().contains(x),
    ensures
        exists|t: Seq<Seq<char>>|
            ascending(by_length, t) && t.to_set() == s.to_set().insert(x),
    decreases s.len(),
{
    lemma_before(by_length);
    if s.len() == 0 || before(by_length, s.last(), x) {
        let t = s.push(x);
        assert forall|i: int, j: int| 0 <= i < j < t.len() implies before(
            by_length,
            #[trigger] t[i],
            #[trigger] t[j],
        ) by {
            if j == s.len() && i < s.len() - 1 {
                assert(before(by_length, s[i], s.last()));
            }
        }
        assert forall|y: Seq<char>| t.to_set().contains(y) <==> s.to_set().insert(x).contains(y) by {
            lemma_push_contains(s, x, y);
        }
        assert(t.to_set() =~= s.to_set().insert(x));
    } else {
        let r = s.drop_last();
        let last = s.last();
        assert(s =~= r.push(last));
        assert forall|y: Seq<char>| s.contains(y) <==> r.contains(y) || y == last by {
            lemma_push_contains(r, last, y);
        }
        assert(s.contains(last));
        lemma_insert_exists(by_length, r, x);
        let u = choose|u: Seq<Seq<char>>|
            ascending(by_length, u) && u.to_set() == r.to_set().insert(x);
        let t = u.push(last);
        lemma_precedes_total(x, last);
        assert(before(by_length, x, last)) by {
            assert(x == last || before(by_length, x, last) || before(by_length, last, x));
        }
        assert forall|i: int, j: int| 0 <= i < j < t.len() implies before(
            by_length,
            #[trigger] t[i],
            #[trigger] t[j],
        ) by {
            if j == u.len() {
                assert(u.to_set().contains(u[i]));
                assert(r.to_set().insert(x).contains(u[i]));
                if u[i] != x {
                    assert(r.contains(u[i]));
                    let k = choose|k: int| 0 <= k < r.len() && r[k] == u[i];
                    assert(before(by_length, s[k], s[s.len() - 1]));
                }
            }
        }
        assert forall|y: Seq<char>| t.to_set().contains(y) <==> s.to_set().insert(x).contains(y) by {
            lemma_push_contains(u, last, y);
            assert(u.to_set().contains(y) <==> r.to_set().insert(x).contains(y));
        }
        assert(t.to_set() =~= s.to_set().insert(x));
    }
}

/// The texts held by a list of characters.
pub open spec fn spelled_out(v: Seq<Vec<char>>) -> Seq<Seq<char>> {
    v.map_values(|t: Vec<char>| t@)
}

/// Compares two texts in the order of code points.
fn comes_first(a: &Vec<char>, b: &Vec<char>) -> (r: bool)
    ensures
        r == precedes(a@, b@),
{
    let mut i: usize = 0;
    assert(a@.skip(0) =~= a@);
    assert(b@.skip(0) =~= b@);
    while i < a.len() && i < b.len()
        invariant
            i <= a@.len(),
            i <= b@.len(),
            precedes(a@, b@) == precedes(a@.skip(i as int), b@.skip(i as int)),
        decreases a.len() - i,
    {
        proof {
            crate::text::lemma_skip_next(a@, i as int);
            crate::text::lemma_skip_next(b@, i as int);
        }
        if a[i] != b[i] {
            return a[i] < b[i];
        }
        i = i + 1;
    }
    i < b.len()
}

/// Whether `a` comes before `b`.
pub fn is_before(by_length: bool, a: &Vec<char>, b: &Vec<char>) -> (r: bool)
    ensures
        r == before(by_length, a@, b@),
{
    if by_length && a.len() != b.len() {
        a.len() < b.len()
    } else {
        comes_first(a, b)
    }
}

fn copied(v: &Vec<char>) -> (r: Vec<char>)
    ensures
        r@ == v@,
{
    let mut out: Vec<char> = Vec::new();
    for i in 0..v.len()
        invariant
            out@ == v@.take(i as int),
    {
        out.push(v[i]);
        assert(v@.take(i + 1) =~= v@.take(i as int).push(v@[i as int]));
    }
    assert(v@.take(v@.len() as int) =~= v@);
    out
}

/// Two sorted lists made one; a text that both hold stays once.
fn merged(by_length: bool, a: &Vec<Vec<char>>, b: &Vec<Vec<char>>) -> (r: Vec<Vec<char>>)
    requires
        ascending(by_length, spelled_out(a@)),
        ascending(by_length, spelled_out(b@)),
    ensures
        ascending(by_length, spelled_out(r@)),
        spelled_out(r@).to_set() == spelled_out(a@).to_set().union(spelled_out(b@).to_set()),
{
    let ghost sa = spelled_out(a@);
    let ghost sb = spelled_out(b@);
    let mut out: Vec<Vec<char>> = Vec::new();
    let mut i: usize = 0;
    let mut j: usize = 0;
    proof {
        lemma_before(by_length);
    }
    while i < a.len() || j < b.len()
        invariant
            i <= a@.len(),
            j <= b@.len(),
            sa == spelled_out(a@),
            sb == spelled_out(b@),
            ascending(by_length, sa),
            ascending(by_length, sb),
            ascending(by_length, spelled_out(out@)),
            forall|k: int, m: int|
                0 <= k < out@.len() && i <= m < sa.len() ==> before(
                    by_length,
                    #[trigger] spelled_out(out@)[k],
                    #[trigger] sa[m],
                ),
            forall|k: int, m: int|
                0 <= k < out@.len() && j <= m < sb.len() ==> before(
                    by_length,
                    #[trigger] spelled_out(out@)[k],
                    #[trigger] sb[m],
                ),
            forall|x: Seq<char>|
                #[trigger] spelled_out(out@).contains(x) <==> sa.take(i as int).contains(x)
                    || sb.take(j as int).contains(x),
        decreases (a.len() - i) + (b.len() - j),
    {
        let ghost so = spelled_out(out@);
        let ghost i0 = i as int;
        let ghost j0 = j as int;
        proof {
            lemma_before(by_length);
            if i < sa.len() {
                crate::text::lemma_take_next(sa, i as int);
            }
            if j < sb.len() {
                crate::text::lemma_take_next(sb, j as int);
            }
        }
        if j >= b.len() || (i < a.len() && is_before(by_length, &a[i], &b[j])) {
            out.push(copied(&a[i]));
            i = i + 1;
            proof {
                assert(spelled_out(out@) =~= so.push(sa[i0]));
                assert forall|x: Seq<char>|
                    #[trigger] spelled_out(out@).contains(x) <==> sa.take(i as int).contains(x)
                        || sb.take(j as int).contains(x) by {
                    lemma_push_contains(so, sa[i0], x);
                    lemma_push_contains(sa.take(i0), sa[i0], x);
                    assert(so.contains(x) <==> sa.take(i0).contains(x) || sb.take(j0).contains(x));
                }
            }
        } else if i >= a.len() || is_before(by_length, &b[j], &a[i]) {
            out.push(copied(&b[j]));
            j = j + 1;
            proof {
                assert(spelled_out(out@) =~= so.push(sb[j0]));
                assert forall|x: Seq<char>|
                    #[trigger] spelled_out(out@).contains(x) <==> sa.take(i as int).contains(x)
                        || sb.take(j as int).contains(x) by {
                    lemma_push_contains(so, sb[j0], x);
                    lemma_push_contains(sb.take(j0), sb[j0], x);
                    assert(so.contains(x) <==> sa.take(i0).contains(x) || sb.take(j0).contains(x));
                }
            }
        } else {
            proof {
                assert(!before(by_length, sa[i0], sb[j0]));
                assert(!before(by_length, sb[j0], sa[i0]));
                lemma_precedes_total(sa[i0], sb[j0]);
                assert(sa[i0] == sb[j0]);
            }
            out.push(copied(&a[i]));
            i = i + 1;
            j = j + 1;
            proof {
                assert(spelled_out(out@) =~= so.push(sa[i0]));
                assert forall|x: Seq<char>|
                    #[trigger] spelled_out(out@).contains(x) <==> sa.take(i as int).contains(x)
                        || sb.take(j as int).contains(x) by {
                    lemma_push_contains(so, sa[i0], x);
                    lemma_push_contains(sa.take(i0), sa[i0], x);
                    lemma_push_contains(sb.take(j0), sb[j0], x);
                    assert(so.contains(x) <==> sa.take(i0).contains(x) || sb.take(j0).contains(x));
                }
            }
        }
    }
    proof {
        assert(sa.take(i as int) =~= sa);
        assert(sb.take(j as int) =~= sb);
        assert(spelled_out(out@).to_set() =~= sa.to_set().union(sb.to_set()));
    }
    out
}

/// Adding a text adds exactly that text.
pub proof fn lemma_push_contains<A>(s: Seq<A>, a: A, x: A)
    ensures
        s.push(a).contains(x) <==> s.contains(x) || x == a,
{
    if s.push(a).contains(x) {
        let k = choose|k: int| 0 <= k < s.push(a).len() && s.push(a)[k] == x;
        if k < s.len() {
            assert(s[k] == x);
        }
    }
    if s.contains(x) {
        let k = choose|k: int| 0 <= k < s.len() && s[k] == x;
        assert(s.push(a)[k] == x);
    }
    if x == a {
        assert(s.push(a)[s.len() as int] == x);
    }
}

fn sorted_range(by_length: bool, v: &Vec<Vec<char>>, lo: usize, hi: usize) -> (r: Vec<Vec<char>>)
    requires
        lo <= hi <= v@.len(),
    ensures
        ascending(by_length, spelled_out(r@)),
        spelled_out(r@).to_set() == spelled_out(v@).subrange(lo as int, hi as int).to_set(),
    decreases hi - lo,
{
    let ghost s = spelled_out(v@);
    if hi - lo == 0 {
        let out: Vec<Vec<char>> = Vec::new();
        assert(spelled_out(out@).to_set() =~= s.subrange(lo as int, hi as int).to_set());
        return out;
    }
    if hi - lo == 1 {
        let mut out: Vec<Vec<char>> = Vec::new();
        out.push(copied(&v[lo]));
        assert(spelled_out(out@) =~= s.subrange(lo as int, hi as int));
        return out;
    }
    let mid: usize = lo + (hi - lo) / 2;
    let a = sorted_range(by_length, v, lo, mid);
    let b = sorted_range(by_length, v, mid, hi);
    proof {
        let sl = s.subrange(lo as int, mid as int);
        let sr = s.subrange(mid as int, hi as int);
        vstd::seq_lib::seq_to_set_distributes_over_add(sl, sr);
        assert(sl + sr =~= s.subrange(lo as int, hi as int));
    }
    merged(by_length, &a, &b)
}

/// The texts of `v` in order, each once.
pub fn sorted(by_length: bool, v: &Vec<Vec<char>>) -> (r: Vec<Vec<char>>)
    ensures
        ascending(by_length, spelled_out(r@)),
        spelled_out(r@).to_set() == spelled_out(v@).to_set(),
        spelled_out(r@) == listed(by_length, spelled_out(v@).to_set()),
{
    let r = sorted_range(by_length, v, 0, v.len());
    proof {
        assert(spelled_out(v@).subrange(0, v@.len() as int) =~= spelled_out(v@));
        lemma_listed(by_length, spelled_out(r@));
    }
    r
}

} // verus!
