//! A table from texts to values.
use vstd::prelude::*;
use vstd::string::*;
use crate::order::{ascending, lemma_push_contains, listed, sorted, spelled_out};
use crate::text::{chars_of, text_of, texts};

verus! {

/// A number that spreads texts over the slots of a table.
pub open spec fn scatter(s: Seq<char>) -> int
    decreases s.len(),
{
    if s.len() == 0 {
        0
    } else {
        (scatter(s.drop_last()) * 31 + s.last() as u32) % 1000003
    }
}

/// A table from texts to values, spread over a fixed number of slots.
pub struct Table<V> {
    slots: Vec<Vec<(String, V)>>,
}

/// Whether a slot holds an entry for `key`.
pub open spec fn slot_has<V>(slot: Seq<(String, V)>, key: Seq<char>) -> bool {
    exists|i: int| 0 <= i < slot.len() && (#[trigger] slot[i]).0@ == key
}

/// Where a slot holds the entry for `key`.
pub open spec fn slot_index<V>(slot: Seq<(String, V)>, key: Seq<char>) -> int {
    choose|i: int| 0 <= i < slot.len() && (#[trigger] slot[i]).0@ == key
}

impl<V> View for Table<V> {
    type V = Map<Seq<char>, V>;

    closed spec fn view(&self) -> Map<Seq<char>, V> {
        Map::new(
            |k: Seq<char>| slot_has(self.slots@[scatter(k) % self.slots@.len() as int]@, k),
            |k: Seq<char>|
                {
                    let slot = self.slots@[scatter(k) % self.slots@.len() as int]@;
                    slot[slot_index(slot, k)].1
                },
        )
    }
}

impl<V> Table<V> {
    /// Every entry stands in its own slot, and no slot holds a text twice.
    pub closed spec fn wf(&self) -> bool {
        &&& self.slots@.len() > 0
        &&& forall|b: int, i: int|
            0 <= b < self.slots@.len() && 0 <= i < self.slots@[b]@.len() ==> scatter(
                (#[trigger] self.slots@[b]@[i]).0@,
            ) % (self.slots@.len() as int) == b
        &&& forall|b: int, i: int, j: int|
            0 <= b < self.slots@.len() && 0 <= i < j < self.slots@[b]@.len() ==> (
            #[trigger] self.slots@[b]@[i]).0@ != (#[trigger] self.slots@[b]@[j]).0@
    }

    /// A table holds finitely many entries.
    pub proof fn lemma_finite(&self)
        requires
            self.wf(),
        ensures
            self@.dom().finite(),
    {
        let n = self.slots@.len() as int;
        let all = Seq::new(
            n as nat,
            |b: int| self.slots@[b]@.map_values(|e: (String, V)| e.0@),
        );
        let flat = all.flatten();
        assert forall|k: Seq<char>| self@.dom().contains(k) implies flat.to_set().contains(k) by {
            lemma_scatter_range(k, n);
            let b = scatter(k) % n;
            let slot = self.slots@[b]@;
            let i = slot_index(slot, k);
            assert(all[b][i] == k);
            lemma_flatten_contains(all, b, i);
        }
        vstd::seq_lib::seq_to_set_is_finite(flat);
        vstd::set_lib::lemma_set_subset_finite(flat.to_set(), self@.dom());
    }

    /// An empty table of `n` slots.
    pub fn new(n: usize) -> (r: Self)
        requires
            n > 0,
        ensures
            r.wf(),
            r@ == Map::<Seq<char>, V>::empty(),
    {
        let mut slots: Vec<Vec<(String, V)>> = Vec::new();
        let mut i: usize = 0;
        while i < n
            invariant
                i <= n,
                slots@.len() == i,
                forall|b: int| 0 <= b < i ==> (#[trigger] slots@[b])@.len() == 0,
            decreases n - i,
        {
            slots.push(Vec::new());
            i = i + 1;
        }
        let r = Table { slots };
        proof {
            assert forall|k: Seq<char>| !r@.dom().contains(k) by {
                lemma_scatter_range(k, r.slots@.len() as int);
            }
            assert(r@ =~= Map::<Seq<char>, V>::empty());
        }
        r
    }

    /// The number of entries.
    pub fn len(&self) -> (r: usize)
        requires
            self.wf(),
        ensures
            r == self@.dom().len(),
    {
        let keys = self.keys();
        proof {
            texts(keys@).unique_seq_to_set();
        }
        keys.len()
    }

    /// The slot of `key`.
    fn slot_of(&self, key: &str) -> (r: usize)
        requires
            self.slots@.len() > 0,
        ensures
            r == scatter(key@) % (self.slots@.len() as int),
            r < self.slots@.len(),
    {
        let v = chars_of(key);
        let mut h: u64 = 0;
        let mut i: usize = 0;
        assert(v@.take(0) =~= seq![]);
        while i < v.len()
            invariant
                i <= v@.len(),
                v@ == key@,
                h < 1000003,
                h == scatter(v@.take(i as int)),
            decreases v.len() - i,
        {
            proof {
                crate::text::lemma_take_next(v@, i as int);
            }
            let c: u32 = v[i] as u32;
            h = (h * 31 + c as u64) % 1000003;
            i = i + 1;
        }
        assert(v@.take(i as int) =~= v@);
        (h % (self.slots.len() as u64)) as usize
    }

    /// Where the entry of `key` stands in slot `b`.
    fn find(&self, b: usize, key: &str) -> (r: Option<usize>)
        requires
            b < self.slots@.len(),
        ensures
            match r {
                Some(i) => i < self.slots@[b as int]@.len() && self.slots@[b as int]@[i as int].0@
                    == key@,
                None => !slot_has(self.slots@[b as int]@, key@),
            },
    {
        let slot = &self.slots[b];
        let mut i: usize = 0;
        while i < slot.len()
            invariant
                b < self.slots@.len(),
                slot == self.slots@[b as int],
                i <= slot@.len(),
                forall|j: int| 0 <= j < i ==> (#[trigger] slot@[j]).0@ != key@,
            decreases slot.len() - i,
        {
            if *slot[i].0.as_str() == *key {
                return Some(i);
            }
            i = i + 1;
        }
        None
    }

    /// The value of `key`.
    pub fn get(&self, key: &str) -> (r: Option<&V>)
        requires
            self.wf(),
        ensures
            match r {
                Some(v) => self@.dom().contains(key@) && *v == self@[key@],
                None => !self@.dom().contains(key@),
            },
    {
        let b = self.slot_of(key);
        match self.find(b, key) {
            Some(i) => {
                proof {
                    let slot = self.slots@[b as int]@;
                    assert(slot_has(slot, key@));
                    let j = slot_index(slot, key@);
                    assert(i == j) by {
                        if i < j {
                            assert(slot[i as int].0@ != slot[j].0@);
                        }
                        if j < i {
                            assert(slot[j].0@ != slot[i as int].0@);
                        }
                    }
                }
                Some(&self.slots[b][i].1)
            },
            None => None,
        }
    }

    /// Takes the entry of `key` out.
    pub fn take(&mut self, key: &str) -> (r: Option<V>)
        requires
            old(self).wf(),
        ensures
            final(self).wf(),
            match r {
                Some(v) => old(self)@.dom().contains(key@) && v == old(self)@[key@] && final(self)@
                    == old(self)@.remove(key@),
                None => !old(self)@.dom().contains(key@) && final(self)@ == old(self)@,
            },
    {
        let b = self.slot_of(key);
        match self.find(b, key) {
            Some(i) => {
                let ghost before = *self;
                let ghost slot0 = self.slots@[b as int]@;
                let ghost n = self.slots@.len() as int;
                proof {
                    assert(slot_has(slot0, key@));
                    let j = slot_index(slot0, key@);
                    assert(i == j) by {
                        if i < j {
                            assert(slot0[i as int].0@ != slot0[j].0@);
                        }
                        if j < i {
                            assert(slot0[j].0@ != slot0[i as int].0@);
                        }
                    }
                    assert(self@.dom().contains(key@));
                }
                let entry = self.slots[b].remove(i);
                proof {
                    let slot1 = self.slots@[b as int]@;
                    assert(slot1 =~= slot0.remove(i as int));
                    assert forall|bb: int, ii: int|
                        0 <= bb < n && 0 <= ii < self.slots@[bb]@.len() implies scatter(
                        (#[trigger] self.slots@[bb]@[ii]).0@,
                    ) % n == bb by {
                        if bb == b {
                            if ii < i {
                                assert(slot1[ii] == slot0[ii]);
                            } else {
                                assert(slot1[ii] == slot0[ii + 1]);
                            }
                        } else {
                            assert(self.slots@[bb] == before.slots@[bb]);
                        }
                    }
                    assert forall|bb: int, ii: int, jj: int|
                        0 <= bb < n && 0 <= ii < jj < self.slots@[bb]@.len() implies (
                    #[trigger] self.slots@[bb]@[ii]).0@ != (#[trigger] self.slots@[bb]@[jj]).0@ by {
                        if bb == b {
                            let i1 = if ii < i {
                                ii
                            } else {
                                ii + 1
                            };
                            let j1 = if jj < i {
                                jj
                            } else {
                                jj + 1
                            };
                            assert(slot1[ii] == slot0[i1]);
                            assert(slot1[jj] == slot0[j1]);
                        } else {
                            assert(self.slots@[bb] == before.slots@[bb]);
                        }
                    }
                    assert(self.wf());
                    lemma_same_elsewhere(before, *self, b as int);
                    assert forall|k: Seq<char>|
                        #![trigger self@.dom().contains(k)]
                        self@.dom().contains(k) == before@.remove(key@).dom().contains(k) && (
                        self@.dom().contains(k) ==> self@[k] == before@.remove(key@)[k]) by {
                        if scatter(k) % n == b {
                            if slot_has(slot1, k) {
                                let x = slot_index(slot1, k);
                                let y = if x < i {
                                    x
                                } else {
                                    x + 1
                                };
                                assert(slot0[y] == slot1[x]);
                                assert(slot_has(slot0, k));
                                lemma_index_is(before, b as int, y);
                                assert(k != key@) by {
                                    if y < i {
                                        assert(slot0[y].0@ != slot0[i as int].0@);
                                    } else {
                                        assert(slot0[i as int].0@ != slot0[y].0@);
                                    }
                                }
                            }
                            if slot_has(slot0, k) && k != key@ {
                                let y = slot_index(slot0, k);
                                let x = if y < i {
                                    y
                                } else {
                                    y - 1
                                };
                                assert(slot1[x] == slot0[y]);
                                assert(slot_has(slot1, k));
                            }
                        }
                    }
                    assert(self@ =~= before@.remove(key@));
                }
                Some(entry.1)
            },
            None => None,
        }
    }

    /// Sets the value of `key`.
    pub fn put(&mut self, key: String, value: V)
        requires
            old(self).wf(),
        ensures
            final(self).wf(),
            final(self)@ == old(self)@.insert(key@, value),
    {
        let ghost map0 = self@;
        let _ = self.take(key.as_str());
        let b = self.slot_of(key.as_str());
        let ghost before = *self;
        let ghost slot0 = self.slots@[b as int]@;
        let ghost n = self.slots@.len() as int;
        let ghost k0 = key@;
        proof {
            assert(!self@.dom().contains(k0));
            assert(!slot_has(slot0, k0));
        }
        self.slots[b].push((key, value));
        proof {
            let slot1 = self.slots@[b as int]@;
            assert(slot1.len() == slot0.len() + 1);
            assert forall|bb: int, ii: int|
                0 <= bb < n && 0 <= ii < self.slots@[bb]@.len() implies scatter(
                (#[trigger] self.slots@[bb]@[ii]).0@,
            ) % n == bb by {
                if bb == b {
                    if ii < slot0.len() {
                        assert(slot1[ii] == slot0[ii]);
                    }
                } else {
                    assert(self.slots@[bb] == before.slots@[bb]);
                }
            }
            assert forall|bb: int, ii: int, jj: int|
                0 <= bb < n && 0 <= ii < jj < self.slots@[bb]@.len() implies (
            #[trigger] self.slots@[bb]@[ii]).0@ != (#[trigger] self.slots@[bb]@[jj]).0@ by {
                if bb == b {
                    assert(slot1[ii] == slot0[ii]);
                    if jj < slot0.len() {
                        assert(slot1[jj] == slot0[jj]);
                    } else {
                        assert(slot0[ii].0@ != k0);
                    }
                } else {
                    assert(self.slots@[bb] == before.slots@[bb]);
                }
            }
            assert(self.wf());
            lemma_same_elsewhere(before, *self, b as int);
            assert forall|k: Seq<char>|
                #![trigger self@.dom().contains(k)]
                self@.dom().contains(k) == before@.insert(k0, value).dom().contains(k) && (
                self@.dom().contains(k) ==> self@[k] == before@.insert(k0, value)[k]) by {
                if scatter(k) % n == b {
                    if slot_has(slot1, k) {
                        let x = slot_index(slot1, k);
                        if x < slot0.len() {
                            assert(slot0[x] == slot1[x]);
                            assert(slot_has(slot0, k));
                            lemma_index_is(before, b as int, x);
                        }
                    }
                    if slot_has(slot0, k) {
                        let y = slot_index(slot0, k);
                        assert(slot1[y] == slot0[y]);
                        assert(slot_has(slot1, k));
                    }
                    if k == k0 {
                        assert(slot1[slot0.len() as int].0@ == k0);
                        assert(slot_has(slot1, k));
                    }
                }
            }
            assert(self@ =~= before@.insert(k0, value));
            assert(self@ =~= map0.insert(k0, value));
        }
    }

    /// The texts of all entries, each once, in no particular order.
    pub fn keys(&self) -> (r: Vec<String>)
        requires
            self.wf(),
        ensures
            texts(r@).to_set() == self@.dom(),
            texts(r@).no_duplicates(),
    {
        let mut out: Vec<String> = Vec::new();
        let ghost n = self.slots@.len() as int;
        let mut b: usize = 0;
        while b < self.slots.len()
            invariant
                self.wf(),
                b <= self.slots@.len(),
                n == self.slots@.len(),
                texts(out@).no_duplicates(),
                forall|k: Seq<char>|
                    #[trigger] texts(out@).contains(k) <==> self@.dom().contains(k) && scatter(k)
                        % n < b,
            decreases self.slots.len() - b,
        {
            let slot = &self.slots[b];
            let ghost out0 = texts(out@);
            let mut i: usize = 0;
            while i < slot.len()
                invariant
                    self.wf(),
                    b < self.slots@.len(),
                    n == self.slots@.len(),
                    slot == self.slots@[b as int],
                    i <= slot@.len(),
                    texts(out@).no_duplicates(),
                    forall|k: Seq<char>|
                        #[trigger] out0.contains(k) <==> self@.dom().contains(k) && scatter(k) % n
                            < b,
                    forall|k: Seq<char>|
                        #[trigger] texts(out@).contains(k) <==> out0.contains(k) || (exists|j: int|
                            0 <= j < i && (#[trigger] slot@[j]).0@ == k),
                decreases slot.len() - i,
            {
                let ghost out1 = texts(out@);
                let ghost key = slot@[i as int].0@;
                out.push(slot[i].0.clone());
                proof {
                    assert(texts(out@) =~= out1.push(key));
                    assert(!out1.contains(key)) by {
                        assert(scatter(self.slots@[b as int]@[i as int].0@) % n == b);
                        if out1.contains(key) {
                            let j = choose|j: int| 0 <= j < i && (#[trigger] slot@[j]).0@ == key;
                            assert(self.slots@[b as int]@[j].0@ != self.slots@[b as int]@[i as int].0@);
                        }
                    }
                    assert forall|k: Seq<char>|
                        #[trigger] texts(out@).contains(k) <==> out0.contains(k) || (exists|j: int|
                            0 <= j < i + 1 && (#[trigger] slot@[j]).0@ == k) by {
                        lemma_push_contains(out1, key, k);
                        assert(out1.contains(k) <==> out0.contains(k) || (exists|j: int|
                            0 <= j < i && (#[trigger] slot@[j]).0@ == k));
                        if k == key {
                            assert(slot@[i as int].0@ == k);
                        }
                    }
                }
                i = i + 1;
            }
            proof {
                assert forall|k: Seq<char>|
                    #[trigger] texts(out@).contains(k) <==> self@.dom().contains(k) && scatter(k)
                        % n < b + 1 by {
                    lemma_scatter_range(k, n);
                    assert(texts(out@).contains(k) <==> out0.contains(k) || (exists|j: int|
                        0 <= j < slot@.len() && (#[trigger] slot@[j]).0@ == k));
                    assert(out0.contains(k) <==> self@.dom().contains(k) && scatter(k) % n < b);
                    if exists|j: int| 0 <= j < slot@.len() && (#[trigger] slot@[j]).0@ == k {
                        let j = choose|j: int| 0 <= j < slot@.len() && (#[trigger] slot@[j]).0@ == k;
                        assert(scatter(self.slots@[b as int]@[j].0@) % n == b);
                        assert(slot_has(self.slots@[b as int]@, k));
                    }
                    if self@.dom().contains(k) && scatter(k) % n == b {
                        assert(slot_has(slot@, k));
                    }
                }
            }
            b = b + 1;
        }
        proof {
            assert forall|k: Seq<char>| #[trigger] texts(out@).contains(k) <==> self@.dom().contains(
                k,
            ) by {
                lemma_scatter_range(k, n);
            }
            assert(texts(out@).to_set() =~= self@.dom());
        }
        out
    }

    /// The texts of all entries in order.
    pub fn sorted_keys(&self, by_length: bool) -> (r: Vec<String>)
        requires
            self.wf(),
        ensures
            texts(r@) == listed(by_length, self@.dom()),
            ascending(by_length, texts(r@)),
            texts(r@).to_set() == self@.dom(),
    {
        let keys = self.keys();
        let mut spelled: Vec<Vec<char>> = Vec::new();
        let mut i: usize = 0;
        while i < keys.len()
            invariant
                i <= keys@.len(),
                spelled_out(spelled@) =~= texts(keys@).take(i as int),
            decreases keys.len() - i,
        {
            let ghost before = spelled_out(spelled@);
            let key = chars_of(keys[i].as_str());
            spelled.push(key);
            i = i + 1;
            proof {
                crate::text::lemma_take_next(texts(keys@), i - 1);
                assert(spelled_out(spelled@) =~= before.push(key@));
            }
        }
        assert(texts(keys@).take(i as int) =~= texts(keys@));
        let sorted = sorted(by_length, &spelled);
        let mut out: Vec<String> = Vec::new();
        let mut i: usize = 0;
        while i < sorted.len()
            invariant
                i <= sorted@.len(),
                texts(out@) =~= spelled_out(sorted@).take(i as int),
            decreases sorted.len() - i,
        {
            let ghost before = texts(out@);
            let key = text_of(&sorted[i]);
            out.push(key);
            i = i + 1;
            proof {
                crate::text::lemma_take_next(spelled_out(sorted@), i - 1);
                assert(texts(out@) =~= before.push(key@));
            }
        }
        assert(texts(out@) =~= spelled_out(sorted@));
        out
    }
}

/// What a part holds, the whole holds.
proof fn lemma_flatten_contains<A>(v: Seq<Seq<A>>, b: int, i: int)
    requires
        0 <= b < v.len(),
        0 <= i < v[b].len(),
    ensures
        v.flatten().contains(v[b][i]),
    decreases v.len(),
{
    let rest = v.drop_first();
    if b == 0 {
        assert(v.flatten()[i] == v[0][i]);
    } else {
        lemma_flatten_contains(rest, b - 1, i);
        let j = choose|j: int| 0 <= j < rest.flatten().len() && rest.flatten()[j] == v[b][i];
        assert(v.flatten() == v.first() + rest.flatten());
        assert(v.flatten()[v[0].len() + j] == v[b][i]);
    }
}

proof fn lemma_scatter_range(k: Seq<char>, n: int)
    requires
        n > 0,
    ensures
        0 <= scatter(k) % n < n,
        0 <= scatter(k) < 1000003,
    decreases k.len(),
{
    if k.len() > 0 {
        lemma_scatter_range(k.drop_last(), n);
    }
}

/// What no slot but `b` changed is unchanged outside slot `b`.
proof fn lemma_same_elsewhere<V>(x: Table<V>, y: Table<V>, b: int)
    requires
        x.slots@.len() == y.slots@.len(),
        x.slots@.len() > 0,
        0 <= b < x.slots@.len(),
        forall|i: int| 0 <= i < x.slots@.len() && i != b ==> x.slots@[i] == y.slots@[i],
    ensures
        forall|k: Seq<char>|
            scatter(k) % (x.slots@.len() as int) != b ==> (#[trigger] x@.dom().contains(k)
                == y@.dom().contains(k) && (x@.dom().contains(k) ==> x@[k] == y@[k])),
{
    assert forall|k: Seq<char>| scatter(k) % (x.slots@.len() as int) != b implies (
    #[trigger] x@.dom().contains(k) == y@.dom().contains(k) && (x@.dom().contains(k) ==> x@[k]
        == y@[k])) by {
        lemma_scatter_range(k, x.slots@.len() as int);
    }
}

/// The entry at `i` of a slot is the one that its text names.
proof fn lemma_index_is<V>(t: Table<V>, b: int, i: int)
    requires
        t.wf(),
        0 <= b < t.slots@.len(),
        0 <= i < t.slots@[b]@.len(),
    ensures
        slot_index(t.slots@[b]@, t.slots@[b]@[i].0@) == i,
{
    let slot = t.slots@[b]@;
    let j = slot_index(slot, slot[i].0@);
    assert(slot[i].0@ == slot[i].0@);
    if i < j {
        assert(slot[i].0@ != slot[j].0@);
    }
    if j < i {
        assert(slot[j].0@ != slot[i].0@);
    }
}

} // verus!
