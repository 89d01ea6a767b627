//! Generational names over a fixed number of slots.
//!
//! A [`Table`] hands out a name for each value it takes in. The name carries the slot the value
//! sits in and the slot's generation at that moment, and removing the value moves the slot on to
//! its next generation. So a copy of a name that outlives its object resolves to nothing, for
//! ever: the slot may be in use again, but under another generation. A slot whose generations are
//! used up is retired rather than wrapped, because a wrapped name would come back to life.
use vstd::prelude::*;

verus! {

/// The slot number sits in the low half of a name, the generation in the high half.
pub const NAME_SHIFT: u64 = 0x1_0000_0000;

/// A generation no name ever carries. A slot that reaches it is retired.
pub const RETIRED: u32 = 0xffff_ffff;

/// One slot: the generation its next (or present) name carries, and the value, if it is taken.
pub struct Slot<T> {
    pub generation: u32,
    pub value: Option<T>,
}

/// A table of values under generational names.
pub struct Table<T> {
    pub slots: Vec<Slot<T>>,
    pub live: usize,
}

/// The slot a name points into.
pub open spec fn slot_of(name: u64) -> int {
    (name % NAME_SHIFT) as int
}

/// The generation a name was minted in.
pub open spec fn generation_of(name: u64) -> int {
    (name / NAME_SHIFT) as int
}

/// The name of slot `slot` in generation `generation`.
pub open spec fn name_at(slot: int, generation: u32) -> u64 {
    (generation * NAME_SHIFT + slot) as u64
}

/// Does `name` resolve?
pub open spec fn holds<T>(slots: Seq<Slot<T>>, name: u64) -> bool {
    let s = slot_of(name);
    &&& s < slots.len()
    &&& slots[s].generation == generation_of(name)
    &&& slots[s].value is Some
}

/// Every value, under its name.
pub open spec fn contents<T>(slots: Seq<Slot<T>>) -> Map<u64, T> {
    Map::new(|name: u64| holds(slots, name), |name: u64| slots[slot_of(name)].value->0)
}

/// Was `name` minted once and given up since? Such a name never resolves again.
pub open spec fn spent<T>(slots: Seq<Slot<T>>, name: u64) -> bool {
    slot_of(name) < slots.len() && generation_of(name) < slots[slot_of(name)].generation
}

/// Can this slot take a new value?
pub open spec fn vacant<T>(slot: Slot<T>) -> bool {
    slot.value is None && slot.generation < RETIRED
}

/// Is `name` the one the next insert mints: the lowest vacant slot, in its present generation?
pub open spec fn mints<T>(slots: Seq<Slot<T>>, name: u64) -> bool {
    let s = slot_of(name);
    &&& s < slots.len()
    &&& vacant(slots[s])
    &&& generation_of(name) == slots[s].generation
    &&& forall|j: int| 0 <= j < s ==> !vacant(#[trigger] slots[j])
}

/// The names that resolve, in slot order.
pub open spec fn live_names<T>(slots: Seq<Slot<T>>) -> Seq<u64>
    decreases slots.len(),
{
    if slots.len() == 0 {
        Seq::empty()
    } else {
        let rest = live_names(slots.drop_last());
        if slots.last().value is Some {
            rest.push(name_at(slots.len() - 1, slots.last().generation))
        } else {
            rest
        }
    }
}

/// How many slots are retired: empty, with no generation left to mint.
pub open spec fn retired<T>(slots: Seq<Slot<T>>) -> nat
    decreases slots.len(),
{
    if slots.len() == 0 {
        0
    } else {
        let rest = retired(slots.drop_last());
        if slots.last().value is None && slots.last().generation == RETIRED {
            rest + 1
        } else {
            rest
        }
    }
}

/// No name was given up between the two, and no slot was retired.
pub open spec fn same_names<T>(a: Seq<Slot<T>>, b: Seq<Slot<T>>) -> bool {
    &&& retired(b) == retired(a)
    &&& forall|n: u64|
        #![trigger spent(a, n)]
        #![trigger spent(b, n)]
        spent(b, n) <==> spent(a, n)
}

/// How many of the names are the last their slot can mint.
pub open spec fn worn(names: Set<u64>) -> nat {
    names.filter(|n: u64| generation_of(n) + 1 == RETIRED).len()
}

/// Between the two the names `gone` were given up and no others, and a slot was retired for each of
/// them that was its last.
pub open spec fn gave_up<T>(a: Seq<Slot<T>>, b: Seq<Slot<T>>, gone: Set<u64>) -> bool {
    &&& retired(b) == retired(a) + worn(gone)
    &&& forall|n: u64|
        #![trigger spent(a, n)]
        #![trigger spent(b, n)]
        spent(b, n) <==> spent(a, n) || gone.contains(n)
}

/// None of no names is the last of anything.
proof fn lemma_worn_none(names: Set<u64>)
    requires
        names == Set::<u64>::empty(),
    ensures
        worn(names) == 0,
{
    assert(names.filter(|n: u64| generation_of(n) + 1 == RETIRED) =~= Set::empty());
}

/// One name is the last of its slot, or it is not.
proof fn lemma_worn_one(name: u64)
    ensures
        worn(Set::empty().insert(name)) == (if generation_of(name) + 1 == RETIRED {
            1nat
        } else {
            0nat
        }),
{
    let last = Set::<u64>::empty().insert(name).filter(
        |n: u64| generation_of(n) + 1 == RETIRED,
    );
    if generation_of(name) + 1 == RETIRED {
        assert(last =~= Set::empty().insert(name));
    } else {
        assert(last =~= Set::empty());
    }
}

/// Of names without a common one, those that are the last of their slots add up.
proof fn lemma_worn_both(some: Set<u64>, others: Set<u64>)
    requires
        some.finite(),
        others.finite(),
        some.disjoint(others),
    ensures
        worn(some.union(others)) == worn(some) + worn(others),
{
    let last = |n: u64| generation_of(n) + 1 == RETIRED;
    assert(some.union(others).filter(last) =~= some.filter(last).union(others.filter(last)));
    vstd::set_lib::lemma_set_disjoint_lens(some.filter(last), others.filter(last));
}

/// Every slot is taken, retired or vacant.
proof fn lemma_three_ways<T>(slots: Seq<Slot<T>>)
    requires
        forall|i: int| 0 <= i < slots.len() ==> !vacant(#[trigger] slots[i]),
    ensures
        live_names(slots).len() + retired(slots) == slots.len(),
    decreases slots.len(),
{
    if slots.len() > 0 {
        let rest = slots.drop_last();
        assert forall|i: int| 0 <= i < rest.len() implies !vacant(#[trigger] rest[i]) by {
            assert(rest[i] == slots[i]);
        }
        lemma_three_ways(rest);
        assert(!vacant(slots[slots.len() - 1]));
    }
}

/// A slot that is vacant is neither taken nor retired.
proof fn lemma_vacant_counts<T>(slots: Seq<Slot<T>>, i: int)
    requires
        0 <= i < slots.len(),
        vacant(slots[i]),
    ensures
        live_names(slots).len() + retired(slots) < slots.len(),
    decreases slots.len(),
{
    let rest = slots.drop_last();
    if i < rest.len() {
        assert(rest[i] == slots[i]);
        lemma_vacant_counts(rest, i);
    } else {
        lemma_at_most_all(rest);
    }
}

/// No slot is both taken and retired.
proof fn lemma_at_most_all<T>(slots: Seq<Slot<T>>)
    ensures
        live_names(slots).len() + retired(slots) <= slots.len(),
    decreases slots.len(),
{
    if slots.len() > 0 {
        lemma_at_most_all(slots.drop_last());
    }
}

/// No slot is retired where no generation has been used.
proof fn lemma_none_retired<T>(slots: Seq<Slot<T>>)
    requires
        forall|i: int| 0 <= i < slots.len() ==> (#[trigger] slots[i]).generation < RETIRED,
    ensures
        retired(slots) == 0,
    decreases slots.len(),
{
    if slots.len() > 0 {
        let rest = slots.drop_last();
        assert forall|i: int| 0 <= i < rest.len() implies (#[trigger] rest[i]).generation
            < RETIRED by {
            assert(rest[i] == slots[i]);
        }
        lemma_none_retired(rest);
        assert(slots[slots.len() - 1].generation < RETIRED);
    }
}

/// Changing one slot changes the count by that slot alone.
proof fn lemma_retired_update<T>(slots: Seq<Slot<T>>, i: int, x: Slot<T>)
    requires
        0 <= i < slots.len(),
        slots[i].value is Some || slots[i].generation < RETIRED,
    ensures
        retired(slots.update(i, x)) == retired(slots) + (if x.value is None && x.generation
            == RETIRED {
            1nat
        } else {
            0nat
        }),
    decreases slots.len(),
{
    let after = slots.update(i, x);
    if i < slots.len() - 1 {
        lemma_retired_update(slots.drop_last(), i, x);
        assert(after.drop_last() =~= slots.drop_last().update(i, x));
    } else {
        assert(after.drop_last() =~= slots.drop_last());
    }
}

/// A name is its slot and its generation, and nothing else.
pub proof fn lemma_name(slot: int, generation: u32)
    requires
        0 <= slot < NAME_SHIFT,
    ensures
        slot_of(name_at(slot, generation)) == slot,
        generation_of(name_at(slot, generation)) == generation,
        name_at(slot, generation) != u64::MAX || slot == NAME_SHIFT - 1,
{
}

/// Two names with one slot and one generation are one name.
pub proof fn lemma_name_injective(a: u64, b: u64)
    requires
        slot_of(a) == slot_of(b),
        generation_of(a) == generation_of(b),
    ensures
        a == b,
{
}

/// What putting `x` into slot `s` does to the contents, for every `x` of the same generation.
proof fn lemma_replace<T>(slots: Seq<Slot<T>>, name: u64, s: int)
    requires
        s == slot_of(name),
        s < slots.len(),
        slots[s].generation == generation_of(name),
    ensures
        forall|x: Slot<T>|
            x.value is Some && x.generation == slots[s].generation ==> #[trigger] contents(
                slots.update(s, x),
            ) == contents(slots).insert(name, x.value->0),
{
    assert forall|x: Slot<T>|
        x.value is Some && x.generation == slots[s].generation implies #[trigger] contents(
        slots.update(s, x),
    ) == contents(slots).insert(name, x.value->0) by {
        assert(contents(slots.update(s, x)) =~= contents(slots).insert(name, x.value->0));
    }
}

/// The live names are the names that resolve, each of them once.
pub proof fn lemma_live_names<T>(slots: Seq<Slot<T>>)
    requires
        slots.len() <= NAME_SHIFT,
    ensures
        forall|name: u64| live_names(slots).contains(name) <==> holds(slots, name),
        live_names(slots).no_duplicates(),
        live_names(slots).len() <= slots.len(),
        contents(slots).dom().finite(),
        contents(slots).dom().len() == live_names(slots).len(),
    decreases slots.len(),
{
    if slots.len() == 0 {
        assert(contents(slots).dom() =~= Set::empty());
    } else {
        let rest = slots.drop_last();
        let n = slots.len() - 1;
        lemma_live_names(rest);
        let name = name_at(n, slots.last().generation);
        lemma_name(n, slots.last().generation);
        assert forall|k: u64| holds(slots, k) <==> holds(rest, k) || (slots.last().value is Some && k
            == name) by {
            if holds(slots, k) && slot_of(k) == n {
                lemma_name_injective(k, name);
            }
        }
        if slots.last().value is Some {
            let before = live_names(rest);
            assert forall|k: u64| before.push(name).contains(k) <==> before.contains(k) || k
                == name by {
                if before.contains(k) {
                    let i = choose|i: int| 0 <= i < before.len() && before[i] == k;
                    assert(before.push(name)[i] == k);
                }
                assert(before.push(name)[before.len() as int] == name);
            }
            assert(!holds(rest, name));
            assert(contents(slots).dom() =~= contents(rest).dom().insert(name));
        } else {
            assert(contents(slots).dom() =~= contents(rest).dom());
        }
    }
}

/// The live names depend on which slots are taken and on their generations alone.
pub proof fn lemma_live_names_same<T>(a: Seq<Slot<T>>, b: Seq<Slot<T>>)
    requires
        a.len() == b.len(),
        forall|i: int|
            0 <= i < a.len() ==> (#[trigger] a[i]).generation == b[i].generation && (
            a[i].value is Some <==> b[i].value is Some),
    ensures
        live_names(a) == live_names(b),
    decreases a.len(),
{
    if a.len() > 0 {
        let (ra, rb) = (a.drop_last(), b.drop_last());
        assert forall|i: int| 0 <= i < ra.len() implies (#[trigger] ra[i]).generation
            == rb[i].generation && (ra[i].value is Some <==> rb[i].value is Some) by {
            assert(ra[i] == a[i]);
        }
        lemma_live_names_same(ra, rb);
        assert(a.last() == a[a.len() - 1]);
    }
}

impl<T> Table<T> {
    /// The values, under their names.
    pub open spec fn view(self) -> Map<u64, T> {
        contents(self.slots@)
    }

    /// The table counts its values, a name has room for every slot number, and nothing sits in a
    /// retired slot.
    pub open spec fn wf(self) -> bool {
        &&& self.slots@.len() < NAME_SHIFT
        &&& self.live == live_names(self.slots@).len()
        &&& forall|i: int|
            0 <= i < self.slots@.len() ==> (#[trigger] self.slots@[i]).value is Some
                ==> self.slots@[i].generation < RETIRED
    }

    /// Can another value be taken in?
    pub open spec fn has_room(self) -> bool {
        exists|i: int| 0 <= i < self.slots@.len() && vacant(#[trigger] self.slots@[i])
    }

    /// Is `later` what is left of this table: nothing in it is new, just the names of what is gone
    /// were given up, and a slot was retired for each of those that was its last?
    pub open spec fn sheds(self, later: Table<T>) -> bool {
        &&& later@.dom().subset_of(self@.dom())
        &&& gave_up(self.slots@, later.slots@, self@.dom().difference(later@.dom()))
    }

    /// An empty table of `capacity` slots. The first name it mints is 0.
    pub fn new(capacity: usize) -> (table: Self)
        requires
            capacity < NAME_SHIFT,
        ensures
            table.wf(),
            table@ == Map::<u64, T>::empty(),
            table.slots@.len() == capacity,
            forall|i: int|
                0 <= i < capacity ==> vacant(#[trigger] table.slots@[i])
                    && table.slots@[i].generation == 0,
            capacity > 0 ==> table.has_room() && mints(table.slots@, 0),
            forall|name: u64| !spent(table.slots@, name),
            retired(table.slots@) == 0,
    {
        let mut slots: Vec<Slot<T>> = Vec::new();
        let mut i: usize = 0;
        while i < capacity
            invariant
                i <= capacity,
                slots@.len() == i,
                forall|j: int|
                    0 <= j < i ==> (#[trigger] slots@[j]).generation == 0 && slots@[j].value is None,
                live_names(slots@).len() == 0,
            decreases capacity - i,
        {
            let ghost before = slots@;
            slots.push(Slot { generation: 0, value: None });
            assert(slots@.drop_last() =~= before);
            i += 1;
        }
        let table = Table { slots, live: 0 };
        assert(table@ =~= Map::<u64, T>::empty());
        assert(capacity > 0 ==> vacant(table.slots@[0]));
        proof {
            lemma_none_retired(table.slots@);
        }
        table
    }

    /// The value `name` names, if it still names one.
    pub fn get(&self, name: u64) -> (r: Option<&T>)
        ensures
            match r {
                Some(t) => self@.contains_key(name) && *t == self@[name],
                None => !self@.contains_key(name),
            },
    {
        let s: u64 = name % NAME_SHIFT;
        let g: u64 = name / NAME_SHIFT;
        if s < self.slots.len() as u64 && self.slots[s as usize].generation as u64 == g {
            match &self.slots[s as usize].value {
                Some(t) => Some(t),
                None => None,
            }
        } else {
            None
        }
    }

    /// The value `name` names, to be changed in place.
    pub fn get_mut(&mut self, name: u64) -> (r: Option<&mut T>)
        requires
            old(self).wf(),
        ensures
            final(self).wf(),
            match r {
                Some(t) => {
                    &&& old(self)@.contains_key(name)
                    &&& *t == old(self)@[name]
                    &&& final(self)@ == old(self)@.insert(name, *final(t))
                    &&& final(self).slots@ == old(self).slots@.update(
                        slot_of(name),
                        Slot {
                            generation: old(self).slots@[slot_of(name)].generation,
                            value: Some(*final(t)),
                        },
                    )
                    &&& same_names(old(self).slots@, final(self).slots@)
                },
                None => !old(self)@.contains_key(name) && *final(self) == *old(self),
            },
    {
        let s: u64 = name % NAME_SHIFT;
        let g: u64 = name / NAME_SHIFT;
        if s < self.slots.len() as u64 && self.slots[s as usize].generation as u64 == g
            && self.slots[s as usize].value.is_some() {
            let i: usize = s as usize;
            proof {
                let slots = self.slots@;
                lemma_replace(slots, name, s as int);
                assert forall|x: Slot<T>|
                    x.value is Some && x.generation == slots[s as int].generation implies
                    live_names(#[trigger] slots.update(s as int, x)) == live_names(slots) by {
                    lemma_live_names_same(slots, slots.update(s as int, x));
                }
                assert forall|x: Slot<T>| x.value is Some implies retired(
                    #[trigger] slots.update(s as int, x),
                ) == retired(slots) by {
                    lemma_retired_update(slots, s as int, x);
                }
            }
            match &mut self.slots[i].value {
                Some(t) => Some(t),
                None => None,
            }
        } else {
            None
        }
    }

    /// How many values the table holds.
    pub fn len(&self) -> (n: usize)
        requires
            self.wf(),
        ensures
            n == self@.dom().len(),
            self@.dom().finite(),
            n <= self.slots@.len(),
    {
        proof {
            lemma_live_names(self.slots@);
        }
        self.live
    }

    /// The name the next [`insert`](Self::insert) will mint, if it can mint one.
    pub fn next_name(&self) -> (r: Option<u64>)
        requires
            self.wf(),
        ensures
            match r {
                Some(name) => mints(self.slots@, name) && self.has_room(),
                None => !self.has_room(),
            },
    {
        let mut i: usize = 0;
        while i < self.slots.len()
            invariant
                i <= self.slots@.len(),
                self.wf(),
                forall|j: int| 0 <= j < i ==> !vacant(#[trigger] self.slots@[j]),
            decreases self.slots@.len() - i,
        {
            if self.slots[i].value.is_none() && self.slots[i].generation < RETIRED {
                let g: u32 = self.slots[i].generation;
                assert(g * NAME_SHIFT + i <= u64::MAX);
                let name: u64 = g as u64 * NAME_SHIFT + i as u64;
                assert(vacant(self.slots@[i as int]));
                proof {
                    lemma_name(i as int, g);
                }
                return Some(name);
            }
            i += 1;
        }
        None
    }

    /// Take `value` in under a fresh name: one that does not resolve and never did. `None`, and
    /// the value is dropped, when no slot can take it.
    pub fn insert(&mut self, value: T) -> (r: Option<u64>)
        requires
            old(self).wf(),
        ensures
            final(self).wf(),
            final(self).slots@.len() == old(self).slots@.len(),
            match r {
                Some(name) => {
                    &&& mints(old(self).slots@, name)
                    &&& !old(self)@.contains_key(name)
                    &&& !spent(old(self).slots@, name)
                    &&& final(self)@ == old(self)@.insert(name, value)
                    &&& final(self).slots@ == old(self).slots@.update(
                        slot_of(name),
                        Slot {
                            generation: old(self).slots@[slot_of(name)].generation,
                            value: Some(value),
                        },
                    )
                    &&& live_names(final(self).slots@).len() == live_names(old(self).slots@).len()
                        + 1
                },
                None => !old(self).has_room() && *final(self) == *old(self),
            },
            r is Some <==> old(self).has_room(),
            same_names(old(self).slots@, final(self).slots@),
    {
        let name: u64 = match self.next_name() {
            Some(name) => name,
            None => {
                return None;
            },
        };
        let s: usize = (name % NAME_SHIFT) as usize;
        let g: u32 = self.slots[s].generation;
        let ghost before = self.slots@;
        self.slots.set(s, Slot { generation: g, value: Some(value) });
        proof {
            lemma_replace(before, name, s as int);
            lemma_live_names(before);
            lemma_live_names(self.slots@);
            assert(contents(before).dom().insert(name) =~= contents(self.slots@).dom());
            lemma_retired_update(before, s as int, self.slots@[s as int]);
        }
        self.live = self.live + 1;
        Some(name)
    }

    /// Give `name` up. It never resolves again, whatever the table does from here on. Its slot can
    /// be taken again, unless this was the last name it could mint.
    pub fn remove(&mut self, name: u64) -> (r: Option<T>)
        requires
            old(self).wf(),
        ensures
            final(self).wf(),
            final(self).slots@.len() == old(self).slots@.len(),
            match r {
                Some(value) => {
                    &&& old(self)@.contains_key(name)
                    &&& value == old(self)@[name]
                    &&& spent(final(self).slots@, name)
                    &&& generation_of(name) + 1 < RETIRED ==> final(self).has_room() && retired(
                        final(self).slots@,
                    ) == retired(old(self).slots@)
                    &&& generation_of(name) + 1 == RETIRED ==> retired(final(self).slots@)
                        == retired(old(self).slots@) + 1
                },
                None => !old(self)@.contains_key(name) && *final(self) == *old(self),
            },
            final(self)@ == old(self)@.remove(name),
            old(self).sheds(*final(self)),
    {
        let ghost before = self.slots@;
        if self.get(name).is_none() {
            assert(self@ =~= self@.remove(name));
            proof {
                lemma_sheds_nothing(*self, *self);
            }
            return None;
        }
        let s: usize = (name % NAME_SHIFT) as usize;
        let g: u32 = self.slots[s].generation;
        let mut vacated: Slot<T> = Slot { generation: g + 1, value: None };
        std::mem::swap(&mut self.slots[s], &mut vacated);
        proof {
            lemma_live_names(before);
            lemma_live_names(self.slots@);
            assert(contents(before).remove(name) =~= contents(self.slots@));
            assert(contents(before).dom().remove(name) =~= contents(self.slots@).dom());
            lemma_retired_update(before, s as int, self.slots@[s as int]);
            assert(g + 1 < RETIRED ==> vacant(self.slots@[s as int]));
            assert forall|other: u64|
                other != name && spent(self.slots@, other) implies spent(before, other) by {
                if slot_of(other) == slot_of(name) && generation_of(other) == generation_of(name) {
                    lemma_name_injective(other, name);
                }
            }
            lemma_worn_one(name);
            assert(contents(before).dom().difference(contents(self.slots@).dom())
                =~= Set::empty().insert(name));
        }
        self.live = self.live - 1;
        vacated.value
    }

    /// The names that resolve, in slot order.
    pub fn names(&self) -> (r: Vec<u64>)
        requires
            self.wf(),
        ensures
            r@ == live_names(self.slots@),
            r@.no_duplicates(),
            forall|name: u64| #[trigger] r@.contains(name) <==> self@.contains_key(name),
    {
        let mut names: Vec<u64> = Vec::new();
        let mut i: usize = 0;
        while i < self.slots.len()
            invariant
                i <= self.slots@.len(),
                self.wf(),
                names@ == live_names(self.slots@.take(i as int)),
            decreases self.slots@.len() - i,
        {
            assert(self.slots@.take(i + 1).drop_last() =~= self.slots@.take(i as int));
            if self.slots[i].value.is_some() {
                let g: u32 = self.slots[i].generation;
                assert(g * NAME_SHIFT + i <= u64::MAX);
                names.push(g as u64 * NAME_SHIFT + i as u64);
            }
            i += 1;
        }
        assert(self.slots@.take(i as int) =~= self.slots@);
        proof {
            lemma_live_names(self.slots@);
        }
        names
    }
}

/// A table that lost nothing shed nothing.
pub proof fn lemma_sheds_nothing<T>(a: Table<T>, b: Table<T>)
    requires
        same_names(a.slots@, b.slots@),
        a@.dom() == b@.dom(),
    ensures
        a.sheds(b),
{
    let gone = a@.dom().difference(b@.dom());
    assert(gone =~= Set::empty());
    lemma_worn_none(gone);
}

/// What is left of what is left is what is left of the whole.
pub proof fn lemma_sheds_again<T>(a: Table<T>, b: Table<T>, c: Table<T>)
    requires
        a.wf(),
        a.sheds(b),
        b.sheds(c),
    ensures
        a.sheds(c),
{
    lemma_live_names(a.slots@);
    let some = a@.dom().difference(b@.dom());
    let others = b@.dom().difference(c@.dom());
    vstd::set_lib::lemma_len_subset(b@.dom(), a@.dom());
    assert(others.subset_of(a@.dom()));
    vstd::set_lib::lemma_len_subset(others, a@.dom());
    lemma_worn_both(some, others);
    assert(some.union(others) =~= a@.dom().difference(c@.dom()));
}

/// **A spent name never resolves.** Together with what [`Table::insert`], [`Table::remove`] and
/// [`Table::get_mut`] say of spent names, this is why a stale name stays stale.
pub proof fn law_spent_names_do_not_resolve<T>(table: Table<T>, name: u64)
    requires
        spent(table.slots@, name),
    ensures
        !table@.contains_key(name),
        !mints(table.slots@, name),
{
}

/// **A table has room exactly if fewer slots are taken or retired than there are.**
pub proof fn law_room_is_what_is_left<T>(table: Table<T>)
    requires
        table.wf(),
    ensures
        table@.dom().finite(),
        table.has_room() <==> table@.dom().len() + retired(table.slots@) < table.slots@.len(),
{
    lemma_live_names(table.slots@);
    if table.has_room() {
        let i = choose|i: int| 0 <= i < table.slots@.len() && vacant(#[trigger] table.slots@[i]);
        lemma_vacant_counts(table.slots@, i);
    } else {
        lemma_three_ways(table.slots@);
    }
}

/// **A name is a slot and a generation, and both can be read off it.** So the same slot has another name
/// in every generation.
pub proof fn law_a_name_is_a_slot_and_a_generation(
    slot: int,
    generation: u32,
    other: int,
    later: u32,
)
    requires
        0 <= slot < 0x1_0000_0000,
        0 <= other < 0x1_0000_0000,
    ensures
        name_at(slot, generation) == slot + 0x1_0000_0000 * generation,
        slot_of(name_at(slot, generation)) == slot,
        generation_of(name_at(slot, generation)) == generation,
        name_at(slot, generation) == name_at(other, later) <==> slot == other && generation == later,
{
}

/// **A name resolves to what its slot holds, in the slot's present generation alone.** One of an earlier
/// generation is spent, one of a later generation is not minted yet, and neither resolves.
pub proof fn law_when_a_name_resolves<T>(slots: Seq<Slot<T>>, s: int, generation: u32)
    requires
        0 <= s < slots.len(),
        slots.len() <= 0x1_0000_0000,
    ensures
        ({
            let name = name_at(s, generation);
            let slot = slots[s];
            &&& contents(slots).contains_key(name) <==> generation == slot.generation
                && slot.value is Some
            &&& contents(slots).contains_key(name) ==> contents(slots)[name] == slot.value->0
            &&& spent(slots, name) <==> generation < slot.generation
            &&& mints(slots, name) ==> generation == slot.generation && slot.value is None
                && generation != 0xffff_ffff
        }),
{
    lemma_name(s, generation);
}

/// **The lowest slot that can be filled is.** A lower one that is empty has no generation left.
pub proof fn law_the_lowest_slot_is_filled<T>(slots: Seq<Slot<T>>, name: u64, lower: int)
    requires
        mints(slots, name),
        0 <= lower < slot_of(name),
    ensures
        slots[lower].value is Some || slots[lower].generation == 0xffff_ffff,
{
    assert(!vacant(slots[lower]));
}

/// **The names come in the order of their slots**, each slot's at most once.
pub proof fn law_names_come_in_order<T>(slots: Seq<Slot<T>>, i: int, j: int)
    requires
        slots.len() <= 0x1_0000_0000,
        0 <= i < j < live_names(slots).len(),
    ensures
        slot_of(live_names(slots)[i]) < slot_of(live_names(slots)[j]),
        slot_of(live_names(slots)[j]) < slots.len(),
    decreases slots.len(),
{
    let rest = slots.drop_last();
    let n = slots.len() - 1;
    lemma_name(n, slots.last().generation);
    if j < live_names(rest).len() {
        law_names_come_in_order(rest, i, j);
    } else {
        lemma_live_names(rest);
        let names = live_names(rest);
        assert(live_names(slots) == names.push(name_at(n, slots.last().generation)));
        assert(names.contains(names[i]));
        assert(holds(rest, names[i]));
        assert(live_names(slots)[i] == names[i]);
    }
}

} // verus!
