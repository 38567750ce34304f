//! A snippet whose places are filled in one after the other.
use vstd::prelude::*;
use vstd::string::*;
use crate::machine::{
    built_upto, choices_from, fill_built, fill_choices, fill_of, fill_place, fill_set, fill_shown,
    fill_shown_upto, fill_value, fill_value_at, rising, rising_place, seeds_upto, stops_upto, Fill,
    SHOWN_WIDTH,
};
use crate::snippet::{piece_texts, pieces, split_placeholders, Piece};
use crate::text::{chars_of, copy_texts, has_char, lemma_take_next, replace_char, slice_text, texts};

verus! {

/// A snippet whose places are filled in.
pub struct Filling {
    pieces: Vec<Piece>,
    /// The places in the order they are filled in.
    order: Vec<u32>,
    /// The one that is filled in now.
    at: usize,
    /// What stands in the places.
    values: Vec<(u32, String)>,
}

/// The numbers of a list of places.
pub open spec fn as_nats(v: Seq<u32>) -> Seq<nat> {
    v.map_values(|n: u32| n as nat)
}

/// Whether a list of values has one for the place `k`.
pub open spec fn has_value(v: Seq<(u32, String)>, k: nat) -> bool {
    exists|i: int| 0 <= i < v.len() && (#[trigger] v[i]).0 as nat == k
}

/// Where a list of values has the one for the place `k`.
pub open spec fn value_index(v: Seq<(u32, String)>, k: nat) -> int {
    choose|i: int| 0 <= i < v.len() && (#[trigger] v[i]).0 as nat == k
}

/// What stands in the places.
pub open spec fn values_of(v: Seq<(u32, String)>) -> Map<nat, Seq<char>> {
    Map::new(|k: nat| has_value(v, k), |k: nat| v[value_index(v, k)].1@)
}

/// No place has two values.
pub open spec fn one_value_each(v: Seq<(u32, String)>) -> bool {
    forall|i: int, j: int|
        0 <= i < j < v.len() ==> (#[trigger] v[i]).0 != (#[trigger] v[j]).0
}

proof fn lemma_value_index(v: Seq<(u32, String)>, i: int)
    requires
        one_value_each(v),
        0 <= i < v.len(),
    ensures
        has_value(v, v[i].0 as nat),
        value_index(v, v[i].0 as nat) == i,
{
    let k = v[i].0 as nat;
    assert(v[i].0 as nat == k);
    let j = value_index(v, k);
    if i < j {
        assert(v[i].0 != v[j].0);
    }
    if j < i {
        assert(v[j].0 != v[i].0);
    }
}

impl View for Filling {
    type V = Fill;

    closed spec fn view(&self) -> Fill {
        Fill {
            pieces: piece_texts(self.pieces@),
            order: as_nats(self.order@),
            at: self.at as int,
            values: values_of(self.values@),
        }
    }
}

/// Sets the value of a place.
fn put_value(v: &mut Vec<(u32, String)>, k: u32, t: String)
    requires
        one_value_each(old(v)@),
    ensures
        one_value_each(final(v)@),
        values_of(final(v)@) == values_of(old(v)@).insert(k as nat, t@),
{
    let ghost v0 = v@;
    let mut i: usize = 0;
    while i < v.len()
        invariant
            i <= v@.len(),
            v@ == v0,
            v0 == old(v)@,
            one_value_each(v0),
            forall|j: int| 0 <= j < i ==> (#[trigger] v0[j]).0 != k,
        decreases v.len() - i,
    {
        if v[i].0 == k {
            v[i] = (k, t);
            proof {
                assert(v@ =~= v0.update(i as int, (k, t)));
                assert forall|a: int, b: int| 0 <= a < b < v@.len() implies (#[trigger] v@[a]).0
                    != (#[trigger] v@[b]).0 by {
                    assert(v0[a].0 == v@[a].0);
                    assert(v0[b].0 == v@[b].0);
                }
                lemma_value_index(v0, i as int);
                lemma_value_index(v@, i as int);
                assert forall|x: nat|
                    #![trigger values_of(v@).dom().contains(x)]
                    values_of(v@).dom().contains(x) == values_of(v0).insert(
                        k as nat,
                        t@,
                    ).dom().contains(x) && (values_of(v@).dom().contains(x) ==> values_of(v@)[x]
                        == values_of(v0).insert(k as nat, t@)[x]) by {
                    if has_value(v0, x) {
                        let j = value_index(v0, x);
                        assert(v@[j].0 == v0[j].0);
                        lemma_value_index(v@, j);
                    }
                    if has_value(v@, x) {
                        let j = value_index(v@, x);
                        assert(v@[j].0 == v0[j].0);
                        lemma_value_index(v0, j);
                    }
                }
                assert(values_of(v@) =~= values_of(v0).insert(k as nat, t@));
            }
            return;
        }
        i = i + 1;
    }
    v.push((k, t));
    proof {
        let n = v0.len() as int;
        assert forall|a: int, b: int| 0 <= a < b < v@.len() implies (#[trigger] v@[a]).0 != (
        #[trigger] v@[b]).0 by {
            assert(v@[a] == v0[a]);
            if b < n {
                assert(v@[b] == v0[b]);
            }
        }
        lemma_value_index(v@, n);
        assert forall|x: nat|
            #![trigger values_of(v@).dom().contains(x)]
            values_of(v@).dom().contains(x) == values_of(v0).insert(k as nat, t@).dom().contains(x)
                && (values_of(v@).dom().contains(x) ==> values_of(v@)[x] == values_of(v0).insert(
                k as nat,
                t@,
            )[x]) by {
            if has_value(v0, x) {
                let j = value_index(v0, x);
                assert(v@[j] == v0[j]);
                lemma_value_index(v@, j);
                assert(x != k as nat);
            }
            if has_value(v@, x) && x != k as nat {
                let j = value_index(v@, x);
                assert(j < n);
                assert(v@[j] == v0[j]);
                lemma_value_index(v0, j);
            }
        }
        assert(values_of(v@) =~= values_of(v0).insert(k as nat, t@));
    }
}

/// The value of a place.
fn get_value(v: &Vec<(u32, String)>, k: u32) -> (r: Option<&String>)
    requires
        one_value_each(v@),
    ensures
        match r {
            Some(s) => values_of(v@).dom().contains(k as nat) && values_of(v@)[k as nat] == s@,
            None => !values_of(v@).dom().contains(k as nat),
        },
{
    let mut i: usize = 0;
    while i < v.len()
        invariant
            i <= v@.len(),
            one_value_each(v@),
            forall|j: int| 0 <= j < i ==> (#[trigger] v@[j]).0 != k,
        decreases v.len() - i,
    {
        if v[i].0 == k {
            proof {
                lemma_value_index(v@, i as int);
            }
            return Some(&v[i].1);
        }
        i = i + 1;
    }
    assert(!has_value(v@, k as nat));
    None
}

/// Whether a place is one of a list.
fn has_number(v: &Vec<u32>, n: u32) -> (r: bool)
    ensures
        r == as_nats(v@).contains(n as nat),
{
    let mut i: usize = 0;
    while i < v.len()
        invariant
            i <= v@.len(),
            forall|j: int| 0 <= j < i ==> #[trigger] as_nats(v@)[j] != n as nat,
        decreases v.len() - i,
    {
        if v[i] == n {
            assert(as_nats(v@)[i as int] == n as nat);
            return true;
        }
        assert(as_nats(v@)[i as int] == v@[i as int] as nat);
        i = i + 1;
    }
    false
}

/// The places in rising order.
fn in_order(v: &Vec<u32>) -> (r: Vec<u32>)
    ensures
        as_nats(r@) == rising(as_nats(v@), v@.len() as int),
        r@.len() == v@.len(),
{
    let ghost all = as_nats(v@);
    let mut out: Vec<u32> = Vec::new();
    let mut i: usize = 0;
    assert(as_nats(out@) =~= seq![]);
    while i < v.len()
        invariant
            i <= v@.len(),
            all == as_nats(v@),
            out@.len() == i,
            as_nats(out@) == rising(all, i as int),
        decreases v.len() - i,
    {
        let ghost had = as_nats(out@);
        let n: u32 = v[i];
        let mut at: usize = out.len();
        assert(had.take(at as int) =~= had);
        while at > 0 && out[at - 1] > n
            invariant
                at <= out@.len(),
                had == as_nats(out@),
                rising_place(had, n as nat) == rising_place(had.take(at as int), n as nat),
            decreases at,
        {
            proof {
                lemma_take_next(had, at - 1);
            }
            at = at - 1;
        }
        proof {
            if at > 0 {
                lemma_take_next(had, at - 1);
            }
            assert(rising_place(had, n as nat) == at);
        }
        out.insert(at, n);
        proof {
            assert(all[i as int] == n as nat);
            assert(as_nats(out@) =~= had.insert(at as int, n as nat));
        }
        i = i + 1;
    }
    out
}

impl Filling {
    /// There is a place to fill in, and no place has two values.
    pub closed spec fn wf(&self) -> bool {
        self.at < self.order@.len() && one_value_each(self.values@)
    }

    /// A snippet to fill in; nothing where it has no place to fill in.
    pub fn new(body: &str) -> (r: Option<Filling>)
        ensures
            match r {
                Some(f) => f.wf() && fill_of(body@) == Some(f@),
                None => fill_of(body@) is None,
            },
    {
        proof {
            reveal(fill_of);
        }
        let parts = split_placeholders(body);
        let ghost all = piece_texts(parts@);
        let mut stops: Vec<u32> = Vec::new();
        let mut values: Vec<(u32, String)> = Vec::new();
        let mut i: usize = 0;
        proof {
            assert(as_nats(stops@) =~= seq![]);
            assert(values_of(values@) =~= Map::empty());
        }
        while i < parts.len()
            invariant
                i <= parts@.len(),
                all == piece_texts(parts@),
                one_value_each(values@),
                as_nats(stops@) == stops_upto(all, i as int),
                values_of(values@) == seeds_upto(all, i as int),
            decreases parts.len() - i,
        {
            let ghost had = as_nats(stops@);
            assert(all[i as int] == parts@[i as int]@);
            if let Piece::Stop { index, default, choices } = &parts[i] {
                if *index != 0 && !has_number(&stops, *index) {
                    stops.push(*index);
                    assert(as_nats(stops@) =~= had.push(*index as nat));
                }
                if get_value(&values, *index).is_none() {
                    let first: String = if choices.len() == 0 {
                        default.clone()
                    } else {
                        assert(texts(choices@)[0] == choices@[0]@);
                        choices[0].clone()
                    };
                    put_value(&mut values, *index, first);
                }
            }
            i = i + 1;
        }
        if stops.len() == 0 {
            return None;
        }
        let order = in_order(&stops);
        let f = Filling { pieces: parts, order, at: 0, values };
        Some(f)
    }

    /// How many places there are to fill in.
    pub fn count(&self) -> (r: usize)
        ensures
            r == self@.order.len(),
    {
        self.order.len()
    }

    /// Which of them is filled in now.
    pub fn position(&self) -> (r: usize)
        requires
            self.wf(),
        ensures
            r == self@.at,
            r < self@.order.len(),
    {
        self.at
    }

    /// The place that is filled in now.
    pub fn current(&self) -> (r: u32)
        requires
            self.wf(),
        ensures
            r == fill_place(self@),
    {
        self.order[self.at]
    }

    /// The choices of the place that is filled in now.
    pub fn choices(&self) -> (r: Vec<String>)
        requires
            self.wf(),
        ensures
            texts(r@) == fill_choices(self@),
    {
        proof {
            reveal(fill_choices);
        }
        let now = self.current();
        let ghost all = piece_texts(self.pieces@);
        let mut i: usize = 0;
        while i < self.pieces.len()
            invariant
                i <= self.pieces@.len(),
                all == piece_texts(self.pieces@),
                now == fill_place(self@),
                fill_choices(self@) == choices_from(all, now as nat, i as int),
            decreases self.pieces.len() - i,
        {
            assert(all[i as int] == self.pieces@[i as int]@);
            if let Piece::Stop { index, default, choices } = &self.pieces[i] {
                if *index == now {
                    return copy_texts(choices);
                }
            }
            i = i + 1;
        }
        let out: Vec<String> = Vec::new();
        assert(texts(out@) =~= seq![]);
        out
    }

    /// What stands in the place that is filled in now.
    pub fn value(&self) -> (r: String)
        requires
            self.wf(),
        ensures
            r@ == fill_value(self@),
    {
        let now = self.current();
        self.value_at(now)
    }

    fn value_at(&self, index: u32) -> (r: String)
        requires
            self.wf(),
        ensures
            r@ == fill_value_at(self@, index as nat),
    {
        match get_value(&self.values, index) {
            Some(s) => s.clone(),
            None => String::new(),
        }
    }

    /// Sets what stands in the place that is filled in now.
    pub fn set_value(&mut self, t: String)
        requires
            old(self).wf(),
        ensures
            final(self).wf(),
            final(self)@ == fill_set(old(self)@, t@),
    {
        let now = self.current();
        put_value(&mut self.values, now, t);
    }

    /// Moves to another place.
    pub fn move_to(&mut self, at: usize)
        requires
            old(self).wf(),
            at < old(self)@.order.len(),
        ensures
            final(self).wf(),
            final(self)@ == (Fill { at: at as int, ..old(self)@ }),
    {
        self.at = at;
    }

    /// The snippet as it is handed out, and how far the cursor goes back from its end.
    pub fn build(&self) -> (r: (String, usize))
        requires
            self.wf(),
        ensures
            (r.0@, r.1 as nat) == fill_built(self@),
    {
        proof {
            reveal(fill_built);
        }
        let ghost all = piece_texts(self.pieces@);
        let mut out: String = String::new();
        let mut zero: Option<usize> = None;
        let mut i: usize = 0;
        assert(out@ =~= seq![]);
        while i < self.pieces.len()
            invariant
                i <= self.pieces@.len(),
                self.wf(),
                all == piece_texts(self.pieces@),
                built_upto(self@, i as int) == (
                    out@,
                    match zero {
                        Some(n) => Some(n as int),
                        None => None,
                    },
                ),
                match zero {
                    Some(n) => n <= out@.len(),
                    None => true,
                },
            decreases self.pieces.len() - i,
        {
            assert(all[i as int] == self.pieces@[i as int]@);
            match &self.pieces[i] {
                Piece::Text(t) => {
                    out.append(t.as_str());
                },
                Piece::Stop { index, default, choices } => {
                    if *index == 0 {
                        zero = Some(out.as_str().unicode_len());
                    } else {
                        let t = self.value_at(*index);
                        out.append(t.as_str());
                    }
                },
            }
            i = i + 1;
        }
        let back: usize = match zero {
            Some(at) => {
                let v = chars_of(out.as_str());
                let tail = slice_text(&v, at, v.len());
                let t = chars_of(tail.as_str());
                assert(t@ =~= out@.skip(at as int));
                if has_char(&t, '\n') {
                    0
                } else {
                    v.len() - at
                }
            },
            None => 0,
        };
        (out, back)
    }

    /// The snippet as it is shown while it is filled in.
    pub fn preview_with(&self, pending: &str) -> (r: String)
        requires
            self.wf(),
        ensures
            r@ == fill_shown(self@, pending@),
    {
        proof {
            reveal(fill_shown);
        }
        let now = self.current();
        let ghost all = piece_texts(self.pieces@);
        let mut out: String = String::new();
        let mut i: usize = 0;
        assert(out@ =~= seq![]);
        while i < self.pieces.len()
            invariant
                i <= self.pieces@.len(),
                self.wf(),
                all == piece_texts(self.pieces@),
                now == fill_place(self@),
                out@ == fill_shown_upto(self@, pending@, i as int),
            decreases self.pieces.len() - i,
        {
            assert(all[i as int] == self.pieces@[i as int]@);
            match &self.pieces[i] {
                Piece::Text(t) => {
                    out.append(t.as_str());
                },
                Piece::Stop { index, default, choices } => {
                    if *index != 0 {
                        let t = self.value_at(*index);
                        out.append(t.as_str());
                        if *index == now {
                            out.append(pending);
                        }
                    }
                },
            }
            i = i + 1;
        }
        let line = replace_char(out.as_str(), '\n', "⏎");
        let v = chars_of(line.as_str());
        if v.len() <= SHOWN_WIDTH {
            return line;
        }
        let mut short = slice_text(&v, 0, SHOWN_WIDTH - 1);
        assert(short@ =~= line@.take(SHOWN_WIDTH - 1));
        short.append("…");
        short
    }
}

} // verus!
