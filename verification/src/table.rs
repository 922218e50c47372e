//! The aggregation table: open addressing with a side arena for names.

use vstd::prelude::*;

use crate::bytes;
use crate::hash;
use crate::model;
use crate::model::{Reading, Stats, CAP};

verus! {

const MASK: usize = 0xFFFF;

/// One slot of a table.
#[derive(Clone, Copy)]
pub struct Entry {
    /// The name is the `key_len` bytes at `key_off` in the table's arena. A
    /// `key_len` of zero marks an empty slot.
    pub key_off: u32,
    pub key_len: u32,
    pub min: i16,
    pub max: i16,
    /// Number of readings of the station.
    pub count: u32,
    pub sum: i64,
}

impl Entry {
    /// What the entry records of its station.
    pub open spec fn stats(self) -> Stats {
        Stats {
            min: self.min as int,
            max: self.max as int,
            count: self.count as int,
            sum: self.sum as int,
        }
    }

    /// An empty slot.
    pub open spec fn blank() -> Entry {
        Entry { key_off: 0, key_len: 0, min: 0, max: 0, count: 0, sum: 0 }
    }

    /// The summary of one measurement, without a name.
    pub open spec fn of(val: i16) -> Entry {
        Entry { key_off: 0, key_len: 0, min: val, max: val, count: 1, sum: val as i64 }
    }

    /// This summary under the name of `len` bytes at `off`.
    pub open spec fn named(self, off: nat, len: nat) -> Entry {
        Entry { key_off: off as u32, key_len: len as u32, ..self }
    }

    /// This entry with the summary of `other` folded in.
    pub open spec fn plus(self, other: Entry) -> Entry {
        Entry {
            min: if other.min < self.min { other.min } else { self.min },
            max: if other.max > self.max { other.max } else { self.max },
            count: (self.count + other.count) as u32,
            sum: (self.sum + other.sum) as i64,
            ..self
        }
    }

    fn empty() -> (e: Entry)
        ensures
            e == Entry::blank(),
    {
        Entry { key_off: 0, key_len: 0, min: 0, max: 0, count: 0, sum: 0 }
    }
}

/// One summary per station.
pub struct Table {
    slots: Vec<Entry>,
    keys: Vec<u8>,
}

/// The slot where the search for a name with hash `h` starts.
pub open spec fn home(h: u64) -> int {
    (h.wrapping_mul(hash::PHI) >> 48) as int
}

/// Steps from one slot to another, going up and round.
pub open spec fn dist(from: int, to: int) -> int {
    if from <= to {
        to - from
    } else {
        to - from + CAP
    }
}

impl Table {
    spec fn live(self, i: int) -> bool {
        0 <= i < self.slots@.len() && self.slots@[i].key_len != 0
    }

    /// The slots, empty ones among them.
    pub closed spec fn slots(self) -> Seq<Entry> {
        self.slots@
    }

    /// The arena: the names one after the other.
    pub closed spec fn arena(self) -> Seq<u8> {
        self.keys@
    }

    /// Whether the name of `e` lies inside the arena of this table.
    pub open spec fn owns(self, e: Entry) -> bool {
        e.key_off + e.key_len <= self.arena().len()
    }

    /// The name of an entry of this table.
    pub open spec fn name_in(self, e: Entry) -> Seq<u8> {
        self.arena().subrange(e.key_off as int, e.key_off + e.key_len)
    }

    /// Whether every entry of `before` has the name here that it has there.
    pub open spec fn keeps_names(self, before: Table) -> bool {
        forall|e: Entry| #[trigger]
            before.owns(e) ==> self.owns(e) && self.name_in(e) == before.name_in(e)
    }

    /// What holds of every table, whatever hashes its names were given: it has
    /// all its slots, and each that is not empty has its name in the arena.
    pub open spec fn sound(self) -> bool {
        &&& self.slots().len() == CAP
        &&& self.arena().len() <= u32::MAX
        &&& forall|i: int|
            0 <= i < CAP && (#[trigger] self.slots()[i]).key_len != 0 ==> self.owns(self.slots()[i])
    }

    /// Whether slot `i` is empty or that of `name`.
    pub open spec fn suits(self, i: int, name: Seq<u8>) -> bool {
        &&& 0 <= i < CAP
        &&& self.slots()[i].key_len == 0 || self.name_in(self.slots()[i]) == name
    }

    /// Whether slot `i` is the first that suits `name`, going up and round
    /// from the slot where the search for `hash` starts.
    pub open spec fn is_slot(self, i: int, name: Seq<u8>, hash: u64) -> bool {
        &&& self.suits(i, name)
        &&& forall|j: int|
            0 <= j < CAP && dist(home(hash), j) < dist(home(hash), i) ==> !#[trigger] self.suits(
                j,
                name,
            )
    }

    /// Whether the search for `name` comes to an end.
    pub open spec fn has_slot(self, name: Seq<u8>) -> bool {
        exists|i: int| #[trigger] self.suits(i, name)
    }

    /// The slot where the search for `name` ends.
    pub open spec fn slot_for(self, name: Seq<u8>, hash: u64) -> int {
        choose|i: int| self.is_slot(i, name, hash)
    }

    /// Whether the summary `given` of `name` can be folded in: a slot suits
    /// it, and the arena or the count and the sum of that slot have room.
    pub open spec fn takes(self, name: Seq<u8>, hash: u64, given: Entry) -> bool {
        let e = self.slots()[self.slot_for(name, hash)];
        &&& self.has_slot(name)
        &&& e.key_len == 0 ==> self.arena().len() + name.len() <= u32::MAX
        &&& e.key_len != 0 ==> {
            &&& e.count + given.count <= u32::MAX
            &&& i64::MIN <= e.sum + given.sum <= i64::MAX
        }
    }

    /// Whether this is `before` with the summary `given` of `name` folded in:
    /// one slot changes, and a name seen for the first time is put at the end
    /// of the arena.
    pub open spec fn folds(self, before: Table, name: Seq<u8>, hash: u64, given: Entry) -> bool {
        let i = before.slot_for(name, hash);
        let e = before.slots()[i];
        &&& before.is_slot(i, name, hash)
        &&& if e.key_len == 0 {
            &&& self.slots() == before.slots().update(
                i,
                given.named(before.arena().len(), name.len()),
            )
            &&& self.arena() == before.arena() + name
        } else {
            &&& self.slots() == before.slots().update(i, e.plus(given))
            &&& self.arena() == before.arena()
        }
    }

    spec fn name_at(self, i: int) -> Seq<u8> {
        self.name_in(self.slots@[i])
    }

    spec fn home_at(self, i: int) -> int {
        home(hash::name_hash(self.name_at(i)))
    }

    spec fn holds(self, n: Seq<u8>) -> bool {
        exists|i: int| #[trigger] self.live(i) && self.name_at(i) == n
    }

    spec fn slot_of(self, n: Seq<u8>) -> int {
        choose|i: int| #[trigger] self.live(i) && self.name_at(i) == n
    }

    /// The live slots before slot `i`.
    spec fn live_below(self, i: int) -> Set<int> {
        Set::new(|j: int| 0 <= j < i && self.live(j))
    }

    /// The names in the slots before slot `i`.
    spec fn names_below(self, i: int) -> Set<Seq<u8>> {
        Set::new(|n: Seq<u8>| exists|j: int| 0 <= j < i && #[trigger] self.live(j) && self.name_at(j) == n)
    }

    /// Every live slot has its name in the arena and a summary of at least one
    /// reading.
    spec fn entries_sound(self) -> bool {
        forall|i: int| #[trigger]
            self.live(i) ==> self.owns(self.slots@[i]) && self.slots@[i].stats().coherent()
    }

    /// No name has two slots.
    spec fn names_distinct(self) -> bool {
        forall|i: int, j: int| #[trigger]
            self.live(i) && #[trigger] self.live(j) && self.name_at(i) == self.name_at(j) ==> i == j
    }

    /// No empty slot stands between a name and the slot where its search
    /// starts.
    spec fn reachable(self) -> bool {
        forall|i: int, j: int| #[trigger]
            self.live(i) && 0 <= j < CAP && dist(self.home_at(i), j) < dist(self.home_at(i), i)
                ==> #[trigger] self.live(j)
    }

    spec fn shape(self) -> bool {
        &&& self.slots@.len() == CAP
        &&& self.entries_sound()
        &&& self.names_distinct()
        &&& self.reachable()
    }

    /// Whether names are found where they are looked for by their own hashes,
    /// and the arena holds each of them once.
    pub closed spec fn placed(self) -> bool {
        &&& self.shape()
        &&& self@.dom().finite()
        &&& self.keys@.len() == model::name_bytes(self@.dom())
    }

    /// What holds of every table whose names are under their own hashes.
    pub open spec fn wf(self) -> bool {
        self.sound() && self.placed()
    }
}

impl View for Table {
    type V = Map<Seq<u8>, Stats>;

    closed spec fn view(&self) -> Map<Seq<u8>, Stats> {
        Map::new(|n: Seq<u8>| self.holds(n), |n: Seq<u8>| self.slots@[self.slot_of(n)].stats())
    }
}

impl Table {
    /// What a live slot records is what the table says of its name.
    proof fn lemma_slot(self, i: int)
        requires
            self.names_distinct(),
            self.live(i),
        ensures
            self@.contains_key(self.name_at(i)),
            self@[self.name_at(i)] == self.slots@[i].stats(),
    {
        let n = self.name_at(i);
        assert(self.holds(n));
        let k = self.slot_of(n);
        assert(self.live(k) && self.name_at(k) == n);
    }

    /// A name that is in the table has a live slot.
    proof fn lemma_held(self, n: Seq<u8>)
        requires
            self.shape(),
            self@.contains_key(n),
        ensures
            self.live(self.slot_of(n)),
            self.name_at(self.slot_of(n)) == n,
            n.len() > 0,
    {
        let k = self.slot_of(n);
        assert(self.live(k) && self.name_at(k) == n);
        assert(self.owns(self.slots@[k]));
    }

    /// There are as many names as live slots, in every slot if all are live.
    proof fn lemma_size(self)
        requires
            self.shape(),
        ensures
            self@.dom().finite(),
            self@.dom().len() <= CAP,
            self@.dom().len() == self.live_below(CAP as int).len(),
            (forall|i: int| 0 <= i < CAP ==> self.live(i)) ==> self@.dom().len() == CAP,
            forall|i: int| 0 <= i < CAP && !#[trigger] self.live(i) ==> self@.dom().len() < CAP,
    {
        let all = vstd::set_lib::set_int_range(0, CAP as int);
        vstd::set_lib::lemma_int_range(0, CAP as int);
        let live = self.live_below(CAP as int);
        vstd::set_lib::lemma_len_subset(live, all);
        let f = |i: int| self.name_at(i);
        assert(live.map(f) =~= self@.dom()) by {
            assert forall|n: Seq<u8>| live.map(f).contains(n) implies self@.dom().contains(n) by {
                let i = choose|i: int| live.contains(i) && f(i) == n;
                self.lemma_slot(i);
            }
            assert forall|n: Seq<u8>| self@.dom().contains(n) implies live.map(f).contains(n) by {
                self.lemma_held(n);
                let i = self.slot_of(n);
                assert(live.contains(i) && f(i) == n);
            }
        }
        assert(vstd::relations::injective_on(f, live)) by {
            assert forall|i: int, j: int|
                live.contains(i) && live.contains(j) && #[trigger] f(i) == #[trigger] f(
                    j,
                ) implies i == j by {
                assert(self.live(i) && self.live(j));
            }
        }
        vstd::set_lib::lemma_map_size(live, self@.dom(), f);
        if forall|i: int| 0 <= i < CAP ==> self.live(i) {
            assert(live =~= all);
        }
        assert forall|i: int| 0 <= i < CAP && !#[trigger] self.live(i) implies self@.dom().len()
            < CAP by {
            vstd::set_lib::lemma_len_subset(live, all.remove(i));
        }
    }

    /// A table holds no more than fits, only summaries of actual readings of
    /// named stations, and one copy of each name.
    pub proof fn lemma_wf(self)
        requires
            self.wf(),
        ensures
            model::fits(self@),
            model::all_coherent(self@),
            self.arena().len() == model::name_bytes(self@.dom()),
    {
        self.lemma_size();
        assert forall|n: Seq<u8>| #[trigger] self@.contains_key(n) implies n.len() > 0
            && self@[n].coherent() && self@[n].count <= u32::MAX by {
            self.lemma_held(n);
            self.lemma_slot(self.slot_of(n));
        }
    }

    /// An empty table.
    pub fn new() -> (t: Table)
        ensures
            t.wf(),
            t@ == Map::<Seq<u8>, Stats>::empty(),
            t.slots() == Seq::new(CAP as nat, |i: int| Entry::blank()),
            t.arena() == Seq::<u8>::empty(),
    {
        let t = Table { slots: vec![Entry::empty();CAP], keys: Vec::with_capacity(64 * 1024) };
        assert(forall|i: int| !t.live(i));
        assert(t@ =~= Map::empty());
        assert(t.slots() =~= Seq::new(CAP as nat, |i: int| Entry::blank()));
        t
    }

    /// The name of an entry of this table.
    #[inline]
    pub fn name_of(&self, e: &Entry) -> (name: &[u8])
        requires
            self.owns(*e),
        ensures
            name@ == self.name_in(*e),
    {
        assert(self.keys@.len() == self.keys.len());
        &self.keys[e.key_off as usize..e.key_off as usize + e.key_len as usize]
    }

    proof fn lemma_home(h: u64)
        ensures
            0 <= home(h) < CAP,
    {
        let mixed = h.wrapping_mul(hash::PHI);
        assert(mixed >> 48 <= 0xffff) by (bit_vector);
    }

    /// There is one slot where a search ends.
    pub proof fn lemma_slot_is(self, i: int, name: Seq<u8>, hash: u64)
        requires
            self.is_slot(i, name, hash),
        ensures
            self.slot_for(name, hash) == i,
    {
        Self::lemma_home(hash);
        let k = self.slot_for(name, hash);
        assert(self.is_slot(k, name, hash));
        assert(self.suits(i, name) && self.suits(k, name));
    }

    /// If a slot suits, the search ends.
    proof fn lemma_nearest(self, i: int, name: Seq<u8>, hash: u64)
        requires
            self.suits(i, name),
        ensures
            self.is_slot(self.slot_for(name, hash), name, hash),
        decreases dist(home(hash), i),
    {
        Self::lemma_home(hash);
        if !self.is_slot(i, name, hash) {
            let j = choose|j: int|
                0 <= j < CAP && dist(home(hash), j) < dist(home(hash), i) && #[trigger] self.suits(
                    j,
                    name,
                );
            self.lemma_nearest(j, name, hash);
        }
    }

    /// Finds the first slot that suits `name`, or nothing if none does.
    #[inline]
    fn find_slot(&self, name: &[u8], hash: u64) -> (r: Option<usize>)
        requires
            self.sound(),
        ensures
            match r {
                Some(idx) => idx < CAP && self.is_slot(idx as int, name@, hash),
                None => !self.has_slot(name@),
            },
    {
        let mixed = hash.wrapping_mul(hash::PHI);
        proof {
            Self::lemma_home(hash);
            let m = (mixed >> 48) as usize;
            assert(m & 0xffff == m) by (bit_vector)
                requires
                    m <= 0xffff,
            ;
        }
        let mut idx: usize = (mixed >> 48) as usize & MASK;
        let mut steps: usize = 0;
        while steps < CAP
            invariant
                self.sound(),
                0 <= home(hash) < CAP,
                0 <= idx < CAP,
                steps <= CAP,
                steps < CAP ==> dist(home(hash), idx as int) == steps,
                forall|j: int|
                    0 <= j < CAP && dist(home(hash), j) < steps ==> !#[trigger] self.suits(
                        j,
                        name@,
                    ),
            decreases CAP - steps,
        {
            let e = self.slots[idx];
            assert(self.slots()[idx as int] == e);
            if e.key_len == 0 {
                return Some(idx);
            }
            if e.key_len as usize == name.len() && bytes::same_bytes(self.name_of(&e), name) {
                return Some(idx);
            }
            proof {
                assert(self.name_in(e) != name@);
                assert((idx + 1) as usize & 0xffff == if idx == 0xffff {
                    0usize
                } else {
                    (idx + 1) as usize
                }) by (bit_vector)
                    requires
                        idx <= 0xffff,
                ;
                assert forall|j: int|
                    0 <= j < CAP && dist(home(hash), j) < steps + 1 implies !#[trigger] self.suits(
                    j,
                    name@,
                ) by {
                    if dist(home(hash), j) == steps {
                        assert(j == idx);
                    }
                }
            }
            idx = (idx + 1) & MASK;
            steps += 1;
        }
        proof {
            assert forall|j: int| !#[trigger] self.suits(j, name@) by {
                if 0 <= j < CAP {
                    assert(dist(home(hash), j) < CAP);
                }
            }
        }
        None
    }

    /// A search by the name's own hash ends at its slot, or at an empty one
    /// where there is none, or nowhere in a table without an empty slot.
    proof fn lemma_found(self, name: Seq<u8>)
        requires
            self.wf(),
            name.len() > 0,
        ensures
            self.has_slot(name) ==> {
                let i = self.slot_for(name, hash::name_hash(name));
                &&& self.is_slot(i, name, hash::name_hash(name))
                &&& self.live(i) <==> self@.contains_key(name)
                &&& self.live(i) ==> self.name_at(i) == name && self@[name] == self.slots@[i].stats()
                &&& !self.live(i) ==> self@.dom().len() < CAP
            },
            !self.has_slot(name) ==> !self@.contains_key(name) && self@.dom().len() == CAP,
    {
        let h = hash::name_hash(name);
        self.lemma_size();
        if self@.contains_key(name) {
            self.lemma_held(name);
            assert(self.suits(self.slot_of(name), name));
        }
        if self.has_slot(name) {
            let s = choose|s: int| #[trigger] self.suits(s, name);
            self.lemma_nearest(s, name, h);
            let i = self.slot_for(name, h);
            if self.live(i) {
                self.lemma_slot(i);
            } else if self@.contains_key(name) {
                let k = self.slot_of(name);
                assert(dist(home(h), i) < dist(home(h), k)) by {
                    if dist(home(h), k) < dist(home(h), i) {
                        assert(!self.suits(k, name));
                    }
                    Self::lemma_home(h);
                }
                assert(self.live(i));
            }
        } else {
            assert forall|i: int| 0 <= i < CAP implies self.live(i) by {
                assert(!self.suits(i, name));
            }
        }
    }

    /// An overwritten slot that keeps its name changes what the table says of
    /// that name and nothing else.
    proof fn lemma_overwrite(self, before: Table, idx: int, s: Stats)
        requires
            before.shape(),
            before.live(idx),
            self.keys@ == before.keys@,
            self.slots@ == before.slots@.update(idx, self.slots@[idx]),
            self.slots@[idx].key_off == before.slots@[idx].key_off,
            self.slots@[idx].key_len == before.slots@[idx].key_len,
            self.slots@[idx].stats() == before.slots@[idx].stats().combine(s),
            self.slots@[idx].stats().coherent(),
        ensures
            self.shape(),
            self@ == model::join(before@, model::single(before.name_at(idx), s)),
    {
        assert forall|i: int| #[trigger] self.live(i) <==> before.live(i) by {}
        assert forall|i: int| self.live(i) implies #[trigger] self.name_at(i) == before.name_at(
            i,
        ) by {}
        assert(self.entries_sound()) by {
            assert forall|i: int| #[trigger] self.live(i) implies self.owns(self.slots@[i])
                && self.slots@[i].stats().coherent() by {
                assert(before.live(i));
            }
        }
        assert(self.names_distinct()) by {
            assert forall|i: int, j: int| #[trigger]
                self.live(i) && #[trigger] self.live(j) && self.name_at(i) == self.name_at(
                    j,
                ) implies i == j by {
                assert(before.live(i) && before.live(j));
            }
        }
        assert(self.reachable()) by {
            assert forall|i: int, j: int| #[trigger]
                self.live(i) && 0 <= j < CAP && dist(self.home_at(i), j) < dist(
                    self.home_at(i),
                    i,
                ) implies #[trigger] self.live(j) by {
                assert(before.live(i));
                assert(before.live(j));
            }
        }
        let n0 = before.name_at(idx);
        let after = model::join(before@, model::single(n0, s));
        before.lemma_slot(idx);
        before.lemma_held(n0);
        assert forall|n: Seq<u8>| self@.contains_key(n) implies after.contains_key(n) && self@[n]
            == after[n] by {
            self.lemma_held(n);
            let i = self.slot_of(n);
            self.lemma_slot(i);
            before.lemma_slot(i);
            if i != idx {
                assert(before.live(i) && before.live(idx));
                assert(n != n0);
            }
        }
        assert forall|n: Seq<u8>| after.contains_key(n) implies self@.contains_key(n) by {
            before.lemma_held(n);
            let i = before.slot_of(n);
            assert(self.live(i));
            self.lemma_slot(i);
        }
        assert(self@ =~= after);
    }

    /// A name put into the empty slot where its search ends, and at the end of
    /// the arena, adds to what the table says and changes nothing else.
    proof fn lemma_fill(self, before: Table, idx: int, name: Seq<u8>, s: Stats)
        requires
            before.shape(),
            0 <= idx < CAP,
            !before.live(idx),
            !before@.contains_key(name),
            name.len() > 0,
            forall|j: int|
                0 <= j < CAP && dist(home(hash::name_hash(name)), j) < dist(
                    home(hash::name_hash(name)),
                    idx,
                ) ==> #[trigger] before.live(j),
            self.keys@ == before.keys@ + name,
            self.slots@ == before.slots@.update(idx, self.slots@[idx]),
            self.slots@[idx].key_off == before.keys@.len(),
            self.slots@[idx].key_len == name.len(),
            self.slots@[idx].stats() == s,
            s.coherent(),
        ensures
            self.shape(),
            self@ == model::join(before@, model::single(name, s)),
            self@.dom() == before@.dom().insert(name),
    {
        assert(self.live(idx));
        assert(self.name_at(idx) =~= name);
        assert forall|i: int| i != idx implies (#[trigger] self.live(i) <==> before.live(i)) by {}
        assert forall|i: int| i != idx && self.live(i) implies #[trigger] self.name_at(i)
            == before.name_at(i) by {
            assert(before.live(i));
            assert(before.owns(before.slots@[i]));
            assert(self.name_at(i) =~= before.name_at(i));
        }
        assert(self.entries_sound()) by {
            assert forall|i: int| #[trigger] self.live(i) implies self.owns(self.slots@[i])
                && self.slots@[i].stats().coherent() by {
                if i != idx {
                    assert(before.live(i));
                }
            }
        }
        assert forall|i: int| i != idx && #[trigger] self.live(i) implies self.name_at(i) != name by {
            assert(before.live(i));
            before.lemma_slot(i);
        }
        assert(self.names_distinct()) by {
            assert forall|i: int, j: int| #[trigger]
                self.live(i) && #[trigger] self.live(j) && self.name_at(i) == self.name_at(
                    j,
                ) implies i == j by {
                if i != idx && j != idx {
                    assert(before.live(i) && before.live(j));
                }
            }
        }
        assert(self.reachable()) by {
            assert forall|i: int, j: int| #[trigger]
                self.live(i) && 0 <= j < CAP && dist(self.home_at(i), j) < dist(
                    self.home_at(i),
                    i,
                ) implies #[trigger] self.live(j) by {
                if j != idx {
                    if i != idx {
                        assert(before.live(i));
                    }
                    assert(before.live(j));
                }
            }
        }
        let after = model::join(before@, model::single(name, s));
        self.lemma_slot(idx);
        assert forall|n: Seq<u8>| self@.contains_key(n) implies after.contains_key(n) && self@[n]
            == after[n] by {
            self.lemma_held(n);
            let i = self.slot_of(n);
            self.lemma_slot(i);
            if i != idx {
                before.lemma_slot(i);
            }
        }
        assert forall|n: Seq<u8>| after.contains_key(n) implies self@.contains_key(n) by {
            if n != name {
                before.lemma_held(n);
                let i = before.slot_of(n);
                assert(self.live(i));
                self.lemma_slot(i);
            }
        }
        assert(self@ =~= after);
        assert(self@.dom() =~= before@.dom().insert(name));
    }

    /// An empty slot that stays empty changes nothing.
    proof fn lemma_unnamed(self, before: Table, idx: int)
        requires
            before.shape(),
            0 <= idx < CAP,
            !before.live(idx),
            self.keys@ == before.keys@,
            self.slots@ == before.slots@.update(idx, self.slots@[idx]),
            self.slots@[idx].key_len == 0,
        ensures
            self.shape(),
            self@ == before@,
    {
        assert forall|i: int| #[trigger] self.live(i) <==> before.live(i) by {}
        assert forall|i: int| self.live(i) implies #[trigger] self.name_at(i) == before.name_at(
            i,
        ) by {}
        assert(self.entries_sound()) by {
            assert forall|i: int| #[trigger] self.live(i) implies self.owns(self.slots@[i])
                && self.slots@[i].stats().coherent() by {
                assert(before.live(i));
            }
        }
        assert(self.names_distinct()) by {
            assert forall|i: int, j: int| #[trigger]
                self.live(i) && #[trigger] self.live(j) && self.name_at(i) == self.name_at(
                    j,
                ) implies i == j by {
                assert(before.live(i) && before.live(j));
            }
        }
        assert(self.reachable()) by {
            assert forall|i: int, j: int| #[trigger]
                self.live(i) && 0 <= j < CAP && dist(self.home_at(i), j) < dist(
                    self.home_at(i),
                    i,
                ) implies #[trigger] self.live(j) by {
                assert(before.live(i));
                assert(before.live(j));
            }
        }
        assert forall|n: Seq<u8>| self@.contains_key(n) implies before@.contains_key(n) && self@[n]
            == before@[n] by {
            self.lemma_held(n);
            let i = self.slot_of(n);
            self.lemma_slot(i);
            before.lemma_slot(i);
        }
        assert forall|n: Seq<u8>| before@.contains_key(n) implies self@.contains_key(n) by {
            before.lemma_held(n);
            let i = before.slot_of(n);
            assert(self.live(i));
            self.lemma_slot(i);
        }
        assert(self@ =~= before@);
    }

    /// A name can be folded in by its own hash if and only if the result
    /// fits.
    pub proof fn lemma_takes(self, name: Seq<u8>, given: Entry)
        requires
            self.wf(),
            name.len() > 0,
            given.stats().coherent(),
        ensures
            self.takes(name, hash::name_hash(name), given) == model::fits(
                model::join(self@, model::single(name, given.stats())),
            ),
    {
        let after = model::join(self@, model::single(name, given.stats()));
        self.lemma_wf();
        self.lemma_found(name);
        assert(after.contains_key(name));
        if self@.contains_key(name) {
            assert(after.dom() =~= self@.dom());
            let e = self.slots@[self.slot_for(name, hash::name_hash(name))];
            lemma_sum_range(e.stats());
            lemma_sum_range(given.stats());
        } else {
            assert(after.dom() =~= self@.dom().insert(name));
            model::lemma_name_bytes_insert(self@.dom(), name);
        }
        assert forall|n: Seq<u8>| #[trigger] after.contains_key(n) && n != name implies after[n]
            == self@[n] && self@.contains_key(n) by {}
    }

    /// A summary folded in by the name's own hash adds to what the table says
    /// and changes nothing else.
    proof fn lemma_folds(self, before: Table, name: Seq<u8>, given: Entry)
        requires
            before.wf(),
            given.stats().coherent(),
            before.takes(name, hash::name_hash(name), given),
            self.folds(before, name, hash::name_hash(name), given),
        ensures
            self.wf(),
            self@ == model::join(before@, model::single(name, given.stats())),
            self.arena() == if before@.contains_key(name) {
                before.arena()
            } else {
                before.arena() + name
            },
    {
        let h = hash::name_hash(name);
        let s = choose|s: int| #[trigger] before.suits(s, name);
        before.lemma_nearest(s, name, h);
        let i = before.slot_for(name, h);
        let e = before.slots@[i];
        before.lemma_wf();
        if name.len() == 0 {
            if before.live(i) {
                assert(before.owns(e));
                assert(before.name_in(e).len() == e.key_len);
            }
            assert(self.keys@ =~= before.keys@);
            self.lemma_unnamed(before, i);
            model::law_join_empty(before@);
            if before@.contains_key(name) {
                before.lemma_held(name);
            }
        } else {
            before.lemma_found(name);
            if before.live(i) {
                model::lemma_combine_coherent(e.stats(), given.stats());
                self.lemma_overwrite(before, i, given.stats());
                assert(self@.dom() =~= before@.dom());
            } else {
                assert forall|j: int|
                    0 <= j < CAP && dist(home(h), j) < dist(home(h), i) implies #[trigger] before.live(
                    j,
                ) by {
                    assert(!before.suits(j, name));
                }
                self.lemma_fill(before, i, name, given.stats());
                model::lemma_name_bytes_insert(before@.dom(), name);
            }
        }
    }

    /// A summary folded in leaves all slots in place and all names as they
    /// were.
    proof fn lemma_folds_sound(self, before: Table, name: Seq<u8>, hash: u64, given: Entry)
        requires
            before.sound(),
            before.takes(name, hash, given),
            self.folds(before, name, hash, given),
        ensures
            self.sound(),
            self.keeps_names(before),
    {
        let s = choose|s: int| #[trigger] before.suits(s, name);
        before.lemma_nearest(s, name, hash);
        let i = before.slot_for(name, hash);
        assert forall|e: Entry| #[trigger] before.owns(e) implies self.owns(e) && self.name_in(e)
            == before.name_in(e) by {
            assert(self.name_in(e) =~= before.name_in(e));
        }
        assert forall|k: int| 0 <= k < CAP && (#[trigger] self.slots()[k]).key_len
            != 0 implies self.owns(self.slots()[k]) by {
            if k != i {
                assert(before.owns(before.slots()[k]));
            } else if before.slots()[i].key_len != 0 {
                assert(before.owns(before.slots()[i]));
            }
        }
    }

    /// Folds a summary of `name` into the table, or says that it cannot.
    #[inline]
    fn fold_in(&mut self, name: &[u8], hash: u64, given: &Entry) -> (r: bool)
        requires
            old(self).sound(),
        ensures
            r == old(self).takes(name@, hash, *given),
            r ==> final(self).folds(*old(self), name@, hash, *given),
            !r ==> *final(self) == *old(self),
    {
        let idx = match self.find_slot(name, hash) {
            Some(idx) => idx,
            None => {
                return false;
            },
        };
        proof {
            self.lemma_slot_is(idx as int, name@, hash);
            assert(self.suits(idx as int, name@));
        }
        let e = self.slots[idx];
        if e.key_len == 0 {
            if name.len() > u32::MAX as usize - self.keys.len() {
                return false;
            }
            let off = self.keys.len() as u32;
            bytes::append(&mut self.keys, name);
            self.slots[idx] = Entry {
                key_off: off,
                key_len: name.len() as u32,
                min: given.min,
                max: given.max,
                count: given.count,
                sum: given.sum,
            };
        } else {
            if given.count > u32::MAX - e.count {
                return false;
            }
            let sum = match e.sum.checked_add(given.sum) {
                Some(sum) => sum,
                None => {
                    return false;
                },
            };
            self.slots[idx] = Entry {
                key_off: e.key_off,
                key_len: e.key_len,
                min: if given.min < e.min {
                    given.min
                } else {
                    e.min
                },
                max: if given.max > e.max {
                    given.max
                } else {
                    e.max
                },
                count: e.count + given.count,
                sum,
            };
        }
        true
    }

    /// Records one measurement `val` (in tenths) for `name`, given its
    /// precomputed `hash`. Any hash does, as long as a name comes with the
    /// same one each time; tables that are merged or reported have their names
    /// under their own hashes.
    #[inline]
    pub fn record(&mut self, name: &[u8], hash: u64, val: i16)
        requires
            old(self).sound(),
            old(self).takes(name@, hash, Entry::of(val)),
        ensures
            final(self).sound(),
            final(self).folds(*old(self), name@, hash, Entry::of(val)),
            final(self).keeps_names(*old(self)),
            old(self).wf() && hash == hash::name_hash(name@) ==> {
                &&& final(self).wf()
                &&& final(self)@ == model::absorb(
                    old(self)@,
                    Reading { name: name@, tenths: val as int },
                )
                &&& final(self).arena() == if old(self)@.contains_key(name@) {
                    old(self).arena()
                } else {
                    old(self).arena() + name@
                }
            },
    {
        let ghost before = *self;
        let one = Entry { key_off: 0, key_len: 0, min: val, max: val, count: 1, sum: val as i64 };
        self.fold_in(name, hash, &one);
        proof {
            self.lemma_folds_sound(before, name@, hash, one);
            if before.wf() && hash == hash::name_hash(name@) {
                self.lemma_folds(before, name@, one);
            }
        }
    }

    /// Records one measurement like `record`, or says that the table has no
    /// room for it.
    #[inline]
    pub fn try_record(&mut self, name: &[u8], hash: u64, val: i16) -> (r: bool)
        requires
            old(self).wf(),
            hash == hash::name_hash(name@),
        ensures
            final(self).wf(),
            final(self).keeps_names(*old(self)),
            r == model::fits(
                model::absorb(old(self)@, Reading { name: name@, tenths: val as int }),
            ),
            final(self)@ == if r {
                model::absorb(old(self)@, Reading { name: name@, tenths: val as int })
            } else {
                old(self)@
            },
            old(self).takes(name@, hash, Entry::of(val)) ==> final(self).folds(
                *old(self),
                name@,
                hash,
                Entry::of(val),
            ),
            !old(self).takes(name@, hash, Entry::of(val)) ==> *final(self) == *old(self),
    {
        let ghost before = *self;
        let one = Entry { key_off: 0, key_len: 0, min: val, max: val, count: 1, sum: val as i64 };
        proof {
            self.lemma_wf();
            if name@.len() > 0 {
                self.lemma_takes(name@, one);
            } else {
                model::law_join_empty(self@);
            }
        }
        let done = self.fold_in(name, hash, &one);
        proof {
            if done {
                self.lemma_folds_sound(before, name@, hash, one);
                self.lemma_folds(before, name@, one);
            }
        }
        // A reading without a name needs no slot.
        done || name.len() == 0
    }

    /// Folds the already-aggregated entry `e` of another table, whose name is
    /// `name`, into this one.
    #[inline]
    pub fn merge_entry(&mut self, name: &[u8], e: &Entry)
        requires
            old(self).sound(),
            old(self).takes(name@, hash::name_hash(name@), *e),
        ensures
            final(self).sound(),
            final(self).folds(*old(self), name@, hash::name_hash(name@), *e),
            final(self).keeps_names(*old(self)),
            old(self).wf() && e.stats().coherent() ==> {
                &&& final(self).wf()
                &&& final(self)@ == model::join(old(self)@, model::single(name@, e.stats()))
                &&& final(self).arena() == if old(self)@.contains_key(name@) {
                    old(self).arena()
                } else {
                    old(self).arena() + name@
                }
            },
    {
        let ghost before = *self;
        let hash = hash::hash_name(name);
        self.fold_in(name, hash, e);
        proof {
            self.lemma_folds_sound(before, name@, hash, *e);
            if before.wf() && e.stats().coherent() {
                self.lemma_folds(before, name@, *e);
            }
        }
    }
}

/// Law: however often a table is added to, an entry keeps the name that it
/// had.
pub proof fn law_names_stay(history: Seq<Table>, e: Entry)
    requires
        history.len() > 0,
        forall|i: int|
            0 <= i < history.len() - 1 ==> history[i + 1].keeps_names(#[trigger] history[i]),
        history[0].owns(e),
    ensures
        history.last().owns(e),
        history.last().name_in(e) == history[0].name_in(e),
    decreases history.len(),
{
    if history.len() > 1 {
        let front = history.drop_last();
        assert forall|i: int| 0 <= i < front.len() - 1 implies front[i + 1].keeps_names(
            #[trigger] front[i],
        ) by {
            assert(front[i] == history[i] && front[i + 1] == history[i + 1]);
        }
        law_names_stay(front, e);
        let k = history.len() - 2;
        assert(history[k + 1].keeps_names(history[k]));
        assert(history[k].owns(e));
    }
}

impl Table {
    /// One slot further, there is one name more, or none if the slot is empty.
    proof fn lemma_names_step(self, i: int)
        requires
            self.wf(),
            0 <= i < CAP,
        ensures
            !self.live(i) ==> self.names_below(i + 1) == self.names_below(i),
            self.live(i) ==> {
                &&& self.names_below(i + 1) == self.names_below(i).insert(self.name_at(i))
                &&& !self.names_below(i).contains(self.name_at(i))
            },
            self.names_below(i).subset_of(self@.dom()),
            self.names_below(i).finite(),
    {
        let a = self.names_below(i);
        let b = self.names_below(i + 1);
        assert forall|n: Seq<u8>| a.contains(n) implies self@.dom().contains(n) && b.contains(n) by {
            let j = choose|j: int| 0 <= j < i && #[trigger] self.live(j) && self.name_at(j) == n;
            self.lemma_slot(j);
            assert(0 <= j < i + 1 && self.live(j) && self.name_at(j) == n);
        }
        vstd::set_lib::lemma_len_subset(a, self@.dom());
        if self.live(i) {
            let m = self.name_at(i);
            assert forall|n: Seq<u8>| b.contains(n) implies n == m || a.contains(n) by {
                let j = choose|j: int|
                    0 <= j < i + 1 && #[trigger] self.live(j) && self.name_at(j) == n;
                if j != i {
                    assert(0 <= j < i && self.live(j) && self.name_at(j) == n);
                }
            }
            assert(b =~= a.insert(m)) by {
                assert(0 <= i < i + 1 && self.live(i) && self.name_at(i) == m);
            }
            if a.contains(m) {
                let j = choose|j: int| 0 <= j < i && #[trigger] self.live(j) && self.name_at(j) == m;
                assert(i == j);
            }
        } else {
            assert forall|n: Seq<u8>| b.contains(n) implies a.contains(n) by {
                let j = choose|j: int|
                    0 <= j < i + 1 && #[trigger] self.live(j) && self.name_at(j) == n;
                assert(0 <= j < i && self.live(j) && self.name_at(j) == n);
            }
            assert(b =~= a);
        }
    }

    /// The names in all slots are the names of the table.
    proof fn lemma_names_all(self)
        requires
            self.wf(),
        ensures
            self.names_below(CAP as int) == self@.dom(),
    {
        let a = self.names_below(CAP as int);
        assert forall|n: Seq<u8>| a.contains(n) implies self@.dom().contains(n) by {
            let j = choose|j: int|
                0 <= j < CAP && #[trigger] self.live(j) && self.name_at(j) == n;
            self.lemma_slot(j);
        }
        assert forall|n: Seq<u8>| self@.dom().contains(n) implies a.contains(n) by {
            self.lemma_held(n);
            let j = self.slot_of(n);
            assert(0 <= j < CAP && self.live(j) && self.name_at(j) == n);
        }
        assert(a =~= self@.dom());
    }

    /// Folds another table into this one.
    pub fn merge(&mut self, other: &Table)
        requires
            old(self).wf(),
            other.wf(),
            model::fits(model::join(old(self)@, other@)),
        ensures
            final(self).wf(),
            final(self)@ == model::join(old(self)@, other@),
            final(self).keeps_names(*old(self)),
    {
        let ghost before = self@;
        let mut i: usize = 0;
        proof {
            self.lemma_wf();
            other.lemma_wf();
            assert(other@.restrict(other.names_below(0)) =~= Map::empty());
            model::law_join_empty(before);
        }
        while i < CAP
            invariant
                i <= CAP,
                self.wf(),
                other.wf(),
                model::all_coherent(before),
                model::all_coherent(other@),
                model::fits(model::join(before, other@)),
                self.keeps_names(*old(self)),
                self@ == model::join(before, other@.restrict(other.names_below(i as int))),
            decreases CAP - i,
        {
            let e = other.slots[i];
            let ghost part = other@.restrict(other.names_below(i as int));
            let ghost next = other@.restrict(other.names_below(i + 1));
            proof {
                other.lemma_names_step(i as int);
            }
            if e.key_len != 0 {
                proof {
                    let name = other.name_at(i as int);
                    assert(other.live(i as int));
                    other.lemma_slot(i as int);
                    assert(next =~= model::join(part, model::single(name, e.stats())));
                    model::law_join_associates(before, part, model::single(name, e.stats()));
                    model::lemma_fits_part(before, next, other@);
                    other.lemma_held(name);
                    self.lemma_wf();
                    self.lemma_takes(name, e);
                }
                self.merge_entry(other.name_of(&e), &e);
            } else {
                assert(next =~= part);
            }
            i += 1;
        }
        proof {
            other.lemma_names_all();
            assert(other@.restrict(other.names_below(CAP as int)) =~= other@);
        }
    }

    /// Number of stations.
    fn live_count(&self) -> (n: usize)
        requires
            self.wf(),
        ensures
            n == self@.dom().len(),
    {
        let mut used: usize = 0;
        let mut i: usize = 0;
        assert(self.live_below(0) =~= Set::empty());
        while i < CAP
            invariant
                i <= CAP,
                self.wf(),
                used <= i,
                self.live_below(i as int).finite(),
                used == self.live_below(i as int).len(),
            decreases CAP - i,
        {
            if self.slots[i].key_len != 0 {
                assert(self.live_below(i + 1) =~= self.live_below(i as int).insert(i as int));
                used += 1;
            } else {
                assert(self.live_below(i + 1) =~= self.live_below(i as int));
            }
            i += 1;
        }
        proof {
            self.lemma_size();
        }
        used
    }

    /// Whether there is room for all that `other` holds.
    pub fn can_merge(&self, other: &Table) -> (r: bool)
        requires
            self.wf(),
            other.wf(),
        ensures
            r == model::fits(model::join(self@, other@)),
    {
        let ghost joined = model::join(self@, other@);
        let used = self.live_count();
        let mut names: usize = 0;
        let mut room: usize = 0;
        let mut i: usize = 0;
        proof {
            self.lemma_wf();
            other.lemma_wf();
            other.lemma_names_step(0);
            assert(other.names_below(0).difference(self@.dom()) =~= Set::empty());
            assert(joined.dom() =~= self@.dom().union(other@.dom()));
        }
        while i < CAP
            invariant
                i <= CAP,
                self.wf(),
                other.wf(),
                model::fits(self@),
                model::fits(other@),
                joined == model::join(self@, other@),
                joined.dom() == self@.dom().union(other@.dom()),
                names <= i,
                other.names_below(i as int).finite(),
                names == other.names_below(i as int).difference(self@.dom()).len(),
                room == model::name_bytes(other.names_below(i as int).difference(self@.dom())),
                forall|n: Seq<u8>|
                    #![trigger joined[n]]
                    other.names_below(i as int).contains(n) ==> joined[n].count <= u32::MAX,
            decreases CAP - i,
        {
            let e = other.slots[i];
            let ghost fresh = other.names_below(i as int).difference(self@.dom());
            let ghost more = other.names_below(i + 1).difference(self@.dom());
            proof {
                other.lemma_names_step(i as int);
                if i + 1 < CAP {
                    other.lemma_names_step(i + 1);
                } else {
                    other.lemma_names_all();
                }
                vstd::set_lib::lemma_len_subset(more, other@.dom());
                model::lemma_name_bytes_subset(more, other@.dom());
            }
            if e.key_len != 0 {
                let name = other.name_of(&e);
                proof {
                    assert(other.live(i as int));
                    assert(name@ == other.name_at(i as int));
                    other.lemma_slot(i as int);
                    other.lemma_held(name@);
                    assert(joined.contains_key(name@));
                }
                proof {
                    self.lemma_wf();
                    self.lemma_found(name@);
                }
                match self.find_slot(name, hash::hash_name(name)) {
                    None => {
                        proof {
                            assert(self@.dom().insert(name@).subset_of(joined.dom()));
                            if joined.dom().finite() {
                                vstd::set_lib::lemma_len_subset(
                                    self@.dom().insert(name@),
                                    joined.dom(),
                                );
                            }
                        }
                        return false;
                    },
                    Some(idx) => {
                        let s = self.slots[idx];
                        proof {
                            self.lemma_slot_is(idx as int, name@, hash::name_hash(name@));
                            assert(self.suits(idx as int, name@));
                        }
                        if s.key_len == 0 {
                            proof {
                                assert(!self.live(idx as int));
                                assert(more =~= fresh.insert(name@));
                                model::lemma_name_bytes_insert(fresh, name@);
                            }
                            names += 1;
                            room += name.len();
                        } else {
                            proof {
                                self.lemma_slot(idx as int);
                                assert(more =~= fresh);
                            }
                            if e.count > u32::MAX - s.count {
                                return false;
                            }
                        }
                    },
                }
            } else {
                assert(more =~= fresh);
            }
            i += 1;
        }
        proof {
            other.lemma_names_all();
            let fresh = other@.dom().difference(self@.dom());
            assert(joined.dom() =~= self@.dom().union(fresh));
            vstd::set_lib::lemma_len_subset(fresh, other@.dom());
            vstd::set_lib::lemma_set_disjoint_lens(self@.dom(), fresh);
            model::lemma_name_bytes_union(self@.dom(), fresh);
            assert forall|n: Seq<u8>| #[trigger] joined.contains_key(n) implies joined[n].count
                <= u32::MAX by {}
        }
        names <= CAP - used && room <= u32::MAX as usize - self.keys.len()
    }

    /// The entries of the stations, in the order of their slots.
    pub fn entries(&self) -> (r: Vec<Entry>)
        requires
            self.sound(),
        ensures
            r@ == self.live_entries(),
    {
        let mut r: Vec<Entry> = Vec::new();
        let mut i: usize = 0;
        proof {
            reveal(Seq::filter);
        }
        assert(r@ =~= self.slots().take(0).filter(|e: Entry| e.key_len != 0));
        while i < CAP
            invariant
                i <= CAP,
                self.sound(),
                r@ == self.slots().take(i as int).filter(|e: Entry| e.key_len != 0),
            decreases CAP - i,
        {
            let e = self.slots[i];
            proof {
                reveal(Seq::filter);
                let next = self.slots().take(i + 1);
                assert(next.drop_last() =~= self.slots().take(i as int));
                assert(next.last() == e);
            }
            if e.key_len != 0 {
                r.push(e);
            }
            i += 1;
        }
        assert(self.slots().take(CAP as int) =~= self.slots());
        r
    }

    /// The entries that are not empty, in the order of their slots.
    pub open spec fn live_entries(self) -> Seq<Entry> {
        self.slots().filter(|e: Entry| e.key_len != 0)
    }

    /// The entries are those of the stations, one each.
    pub proof fn lemma_entries(self)
        requires
            self.wf(),
        ensures
            ({
                let r = self.live_entries();
                &&& forall|k: int|
                    0 <= k < r.len() ==> {
                        &&& self.owns(#[trigger] r[k])
                        &&& self@.contains_key(self.name_in(r[k]))
                        &&& self@[self.name_in(r[k])] == r[k].stats()
                    }
                &&& forall|j: int, k: int|
                    0 <= j < k < r.len() ==> self.name_in(#[trigger] r[j]) != self.name_in(
                        #[trigger] r[k],
                    )
                &&& forall|n: Seq<u8>| #[trigger]
                    self@.contains_key(n) ==> exists|k: int|
                        0 <= k < r.len() && self.name_in(#[trigger] r[k]) == n
            }),
    {
        self.lemma_entries_below(CAP as int);
        self.lemma_names_all();
        assert(self.slots().take(CAP as int) =~= self.slots());
        let r = self.live_entries();
        assert forall|n: Seq<u8>| #[trigger] self@.contains_key(n) implies exists|k: int|
            0 <= k < r.len() && self.name_in(#[trigger] r[k]) == n by {
            assert(self.names_below(CAP as int).contains(n));
        }
    }

    proof fn lemma_entries_below(self, i: int)
        requires
            self.wf(),
            0 <= i <= CAP,
        ensures
            ({
                let r = self.slots().take(i).filter(|e: Entry| e.key_len != 0);
                &&& forall|k: int|
                    0 <= k < r.len() ==> {
                        &&& self.owns(#[trigger] r[k])
                        &&& self@.contains_key(self.name_in(r[k]))
                        &&& self@[self.name_in(r[k])] == r[k].stats()
                        &&& self.names_below(i).contains(self.name_in(r[k]))
                    }
                &&& forall|j: int, k: int|
                    0 <= j < k < r.len() ==> self.name_in(#[trigger] r[j]) != self.name_in(
                        #[trigger] r[k],
                    )
                &&& forall|n: Seq<u8>| #[trigger]
                    self.names_below(i).contains(n) ==> exists|k: int|
                        0 <= k < r.len() && self.name_in(#[trigger] r[k]) == n
            }),
        decreases i,
    {
        reveal(Seq::filter);
        let r = self.slots().take(i).filter(|e: Entry| e.key_len != 0);
        if i > 0 {
            let had = self.slots().take(i - 1).filter(|e: Entry| e.key_len != 0);
            let e = self.slots()[i - 1];
            assert(self.slots().take(i).drop_last() =~= self.slots().take(i - 1));
            assert(self.slots().take(i).last() == e);
            self.lemma_entries_below(i - 1);
            self.lemma_names_step(i - 1);
            if e.key_len != 0 {
                assert(self.live(i - 1));
                self.lemma_slot(i - 1);
                assert(r == had.push(e));
                assert forall|n: Seq<u8>| #[trigger] self.names_below(i).contains(
                    n,
                ) implies exists|k: int| 0 <= k < r.len() && self.name_in(#[trigger] r[k]) == n by {
                    if n == self.name_at(i - 1) {
                        assert(self.name_in(r[r.len() - 1]) == n);
                    } else {
                        assert(self.names_below(i - 1).contains(n));
                        let k = choose|k: int|
                            0 <= k < had.len() && self.name_in(#[trigger] had[k]) == n;
                        assert(r[k] == had[k]);
                    }
                }
            } else {
                assert(r == had);
            }
        }
    }
}

/// The sum of up to `u32::MAX` readings is far from the ends of `i64`.
pub proof fn lemma_sum_range(s: Stats)
    requires
        s.coherent(),
        s.count <= u32::MAX,
    ensures
        -0x8000_0000_0000 <= s.sum <= 0x8000_0000_0000,
{
    assert(-0x8000 * s.count <= s.min * s.count && s.max * s.count <= 0x8000 * s.count)
        by (nonlinear_arith)
        requires
            -0x8000 <= s.min,
            s.max <= 0x8000,
            s.count >= 1,
    ;
}

/// Law: what an entry records, and what becomes of it when another is folded
/// in.
pub proof fn law_entry(e: Entry, g: Entry, val: i16)
    requires
        e.count + g.count <= u32::MAX,
        i64::MIN <= e.sum + g.sum <= i64::MAX,
    ensures
        ({
            let s = e.stats();
            let f = e.plus(g);
            let v = Entry::of(val);
            &&& s.min == e.min && s.max == e.max && s.count == e.count && s.sum == e.sum
            &&& f.key_off == e.key_off && f.key_len == e.key_len
            &&& f.min <= e.min && f.min <= g.min && (f.min == e.min || f.min == g.min)
            &&& f.max >= e.max && f.max >= g.max && (f.max == e.max || f.max == g.max)
            &&& f.count == e.count + g.count
            &&& f.sum == e.sum + g.sum
            &&& v.min == val && v.max == val && v.count == 1 && v.sum == val && v.key_len == 0
            &&& Entry::blank().key_len == 0
        }),
{
}

/// Law: a search goes from slot to slot, up and round, and ends at the first
/// that is empty or has the name.
pub proof fn law_is_slot(t: Table, i: int, name: Seq<u8>, hash: u64)
    requires
        0 <= i < 0x1_0000,
    ensures
        t.suits(i, name) <==> t.slots()[i].key_len == 0 || t.arena().subrange(
            t.slots()[i].key_off as int,
            t.slots()[i].key_off + t.slots()[i].key_len,
        ) == name,
        t.is_slot(i, name, hash) <==> {
            &&& t.suits(i, name)
            &&& forall|j: int|
                0 <= j < 0x1_0000 && (home(hash) <= j < i || j < i < home(hash) || i < home(hash)
                    <= j) ==> !#[trigger] t.suits(j, name)
        },
        t.is_slot(i, name, hash) ==> t.slot_for(name, hash) == i,
{
    Table::lemma_home(hash);
    if t.is_slot(i, name, hash) {
        t.lemma_slot_is(i, name, hash);
        assert forall|j: int|
            0 <= j < 0x1_0000 && (home(hash) <= j < i || j < i < home(hash) || i < home(hash)
                <= j) implies !#[trigger] t.suits(j, name) by {
            assert(dist(home(hash), j) < dist(home(hash), i));
        }
    }
}

/// Law: a summary can be folded in at its slot if the arena has room for a new
/// name, or the slot for its count and its sum.
pub proof fn law_takes(t: Table, i: int, name: Seq<u8>, hash: u64, given: Entry)
    requires
        t.is_slot(i, name, hash),
    ensures
        t.takes(name, hash, given) <==> if t.slots()[i].key_len == 0 {
            t.arena().len() + name.len() <= 0xFFFF_FFFF
        } else {
            &&& t.slots()[i].count + given.count <= 0xFFFF_FFFF
            &&& -0x8000_0000_0000_0000 <= t.slots()[i].sum + given.sum <= 0x7FFF_FFFF_FFFF_FFFF
        },
{
    t.lemma_slot_is(i, name, hash);
    assert(t.suits(i, name));
}

/// Law: folding a summary in changes the one slot where the search ends. An
/// empty one gets the summary, and the name goes to the end of the arena; one
/// that has the name gets the lesser minimum, the greater maximum, the counts
/// and the sums together, and the arena stays.
pub proof fn law_fold(after: Table, before: Table, name: Seq<u8>, hash: u64, given: Entry)
    requires
        before.sound(),
        before.takes(name, hash, given),
        after.folds(before, name, hash, given),
    ensures
        ({
            let i = before.slot_for(name, hash);
            let (e, f) = (before.slots()[i], after.slots()[i]);
            &&& 0 <= i < 0x1_0000
            &&& before.is_slot(i, name, hash)
            &&& after.slots().len() == before.slots().len()
            &&& forall|j: int|
                0 <= j < before.slots().len() && j != i ==> #[trigger] after.slots()[j]
                    == before.slots()[j]
            &&& after.arena().subrange(f.key_off as int, f.key_off + f.key_len) == name
            &&& e.key_len == 0 ==> {
                &&& after.arena() == before.arena() + name
                &&& f.min == given.min && f.max == given.max
                &&& f.count == given.count && f.sum == given.sum
                &&& f.key_off == before.arena().len() && f.key_len == name.len()
            }
            &&& e.key_len != 0 ==> {
                &&& after.arena() == before.arena()
                &&& f.key_off == e.key_off && f.key_len == e.key_len
                &&& f.min <= e.min && f.min <= given.min && (f.min == e.min || f.min == given.min)
                &&& f.max >= e.max && f.max >= given.max && (f.max == e.max || f.max == given.max)
                &&& f.count == e.count + given.count
                &&& f.sum == e.sum + given.sum
            }
        }),
{
    let i = before.slot_for(name, hash);
    let (e, f) = (before.slots()[i], after.slots()[i]);
    if e.key_len == 0 {
        assert(after.arena().subrange(f.key_off as int, f.key_off + f.key_len) =~= name);
    }
}

} // verus!
