//! Generational arena: every stored value gets a handle made of a slot
//! index and a generation, so that a handle to a removed value is detected
//! even after its slot has been reused.

use vstd::multiset::Multiset;
use vstd::prelude::*;

verus! {

/// Handle to one value of an [`IdMap`]: the slot and the generation under
/// which the slot was filled.
#[derive(Debug, Clone, Copy, PartialEq, Eq, Structural, PartialOrd, Ord, Hash)]
pub struct Id {
    pub index: usize,
    pub identifier: usize,
}

/// One slot of the arena.
#[derive(Debug)]
pub struct Item<T> {
    pub identifier: usize,
    data: Option<T>,
}

impl<T> Item<T> {
    /// The value held by the slot, if any.
    pub closed spec fn value(&self) -> Option<T> {
        self.data
    }

    /// The generation recorded in the slot.
    pub closed spec fn generation(&self) -> usize {
        self.identifier
    }

    /// An occupied slot of the given generation.
    pub fn new(identifier: usize, data: T) -> (item: Self)
        ensures
            item.generation() == identifier,
            item.value() == Some(data),
    {
        Self { identifier, data: Some(data) }
    }

    /// Whether the slot holds a value.
    pub fn is_some(&self) -> (occupied: bool)
        ensures
            occupied == self.value().is_some(),
    {
        self.data.is_some()
    }

    /// Empties the slot and hands its value out. An occupied slot loses its
    /// generation; an empty one is left as it was.
    pub fn take(&mut self) -> (taken: Option<T>)
        ensures
            taken == old(self).value(),
            final(self).value().is_none(),
            final(self).generation() == (if old(self).value().is_some() { 0 } else { old(self).generation() }),
    {
        if self.data.is_some() {
            self.identifier = 0;
            self.data.take()
        } else {
            None
        }
    }

    /// The value held by the slot, if any.
    pub fn as_ref(&self) -> (value: Option<&T>)
        ensures
            value.is_some() == self.value().is_some(),
            value matches Some(v) ==> self.value() == Some(*v),
    {
        self.data.as_ref()
    }

    /// Exclusive access to the value held by the slot, if any.
    pub fn as_mut(&mut self) -> (value: Option<&mut T>)
        ensures
            final(self).generation() == old(self).generation(),
            match value {
                Some(v) => old(self).value() == Some(*v) && final(self).value() == Some(*final(v)),
                None => old(self).value().is_none() && final(self).value().is_none(),
            },
    {
        self.data.as_mut()
    }
}

/// A handle together with a shared borrow of the value it names.
#[derive(Debug)]
pub struct RefItem<'a, T> {
    pub id: Id,
    pub data: &'a T,
}

/// A handle together with an exclusive borrow of the value it names.
#[derive(Debug)]
pub struct MutItem<'a, T> {
    pub id: Id,
    pub data: &'a mut T,
}

/// Mathematical model of an arena.
///
/// `slots[i]` is the generation and the value held by slot `i`, or `None`
/// for an empty slot; `free` is the stack of empty slots, the next one to be
/// reused last; `generation` is the newest generation handed out so far.
pub struct ArenaView<T> {
    pub slots: Seq<Option<(usize, T)>>,
    pub free: Seq<usize>,
    pub generation: usize,
}

/// The handle and value of slot `i`, as a sequence of at most one element.
pub open spec fn slot_entry<T>(slots: Seq<Option<(usize, T)>>, i: int) -> Seq<(Id, T)> {
    match slots[i] {
        Some((g, v)) => seq![(Id { index: i as usize, identifier: g }, v)],
        None => Seq::empty(),
    }
}

/// Handles and values of the occupied slots among `lo..hi`, by rising index.
pub open spec fn entries_range<T>(slots: Seq<Option<(usize, T)>>, lo: int, hi: int) -> Seq<(Id, T)>
    decreases hi - lo,
{
    if lo >= hi {
        Seq::empty()
    } else {
        entries_range(slots, lo, hi - 1) + slot_entry(slots, hi - 1)
    }
}

impl<T> ArenaView<T> {
    /// The empty arena.
    pub open spec fn empty() -> Self {
        ArenaView { slots: Seq::empty(), free: Seq::empty(), generation: 0 }
    }

    /// A handle is valid when its slot is occupied under the handle's
    /// generation.
    pub open spec fn contains(self, id: Id) -> bool {
        &&& id.index < self.slots.len()
        &&& self.slots[id.index as int] matches Some((g, _))
        &&& g == id.identifier
    }

    /// The value named by a valid handle.
    pub open spec fn get(self, id: Id) -> T
        recommends
            self.contains(id),
    {
        (self.slots[id.index as int]->0).1
    }

    /// The valid handles with their values.
    pub open spec fn map(self) -> Map<Id, T> {
        Map::new(|id: Id| self.contains(id), |id: Id| self.get(id))
    }

    /// Handles and values of all occupied slots, by rising index.
    pub open spec fn entries(self) -> Seq<(Id, T)> {
        entries_range(self.slots, 0, self.slots.len() as int)
    }

    /// The stored values, without their order.
    pub open spec fn values(self) -> Multiset<T> {
        entry_values(self.entries())
    }

    /// Number of stored values.
    pub open spec fn len(self) -> nat {
        self.entries().len()
    }

    /// Consistency of the model: the free stack lists each empty slot once
    /// and nothing else, the occupied slots carry generations between 1 and
    /// the newest one handed out, and there are no more slots than
    /// generations.
    pub open spec fn wf(self) -> bool {
        &&& forall|k: int|
            0 <= k < self.free.len() ==> (#[trigger] self.free[k]) < self.slots.len()
                && self.slots[self.free[k] as int].is_none()
        &&& self.free.no_duplicates()
        &&& forall|i: int|
            0 <= i < self.slots.len() && (#[trigger] self.slots[i]).is_none()
                ==> self.free.contains(i as usize)
        &&& forall|i: int|
            0 <= i < self.slots.len() ==> (#[trigger] self.slots[i] matches Some((g, _))
                ==> 1 <= g <= self.generation)
        &&& self.entries().len() + self.free.len() == self.slots.len()
        &&& self.slots.len() <= self.generation
    }

    /// The handle that the next insertion returns: the slot freed last, or
    /// a new slot when none is free, under the next generation.
    pub open spec fn insert_id(self) -> Id {
        Id {
            index: if self.free.len() > 0 {
                self.free.last()
            } else {
                self.slots.len() as usize
            },
            identifier: (self.generation + 1) as usize,
        }
    }

    /// The arena after inserting `value`.
    pub open spec fn insert(self, value: T) -> Self {
        let id = self.insert_id();
        if self.free.len() > 0 {
            ArenaView {
                slots: self.slots.update(id.index as int, Some((id.identifier, value))),
                free: self.free.drop_last(),
                generation: id.identifier,
            }
        } else {
            ArenaView {
                slots: self.slots.push(Some((id.identifier, value))),
                free: self.free,
                generation: id.identifier,
            }
        }
    }

    /// The arena after removing the value named by `id`; unchanged when the
    /// handle is not valid.
    pub open spec fn remove(self, id: Id) -> Self {
        if self.contains(id) {
            ArenaView {
                slots: self.slots.update(id.index as int, None),
                free: self.free.push(id.index),
                generation: self.generation,
            }
        } else {
            self
        }
    }

    /// The arena after replacing the value named by `id`; unchanged when
    /// the handle is not valid.
    pub open spec fn update(self, id: Id, value: T) -> Self {
        if self.contains(id) {
            ArenaView {
                slots: self.slots.update(id.index as int, Some((id.identifier, value))),
                free: self.free,
                generation: self.generation,
            }
        } else {
            self
        }
    }
}

/// A range splits at any point inside it.
pub proof fn lemma_entries_split<T>(slots: Seq<Option<(usize, T)>>, lo: int, mid: int, hi: int)
    requires
        lo <= mid <= hi,
    ensures
        entries_range(slots, lo, hi) == entries_range(slots, lo, mid) + entries_range(
            slots,
            mid,
            hi,
        ),
    decreases hi - mid,
{
    if mid == hi {
        assert(entries_range(slots, mid, hi) == Seq::<(Id, T)>::empty());
        assert(entries_range(slots, lo, mid) + Seq::<(Id, T)>::empty() == entries_range(
            slots,
            lo,
            mid,
        ));
    } else {
        lemma_entries_split(slots, lo, mid, hi - 1);
        assert(entries_range(slots, lo, hi) == (entries_range(slots, lo, mid) + entries_range(
            slots,
            mid,
            hi - 1,
        )) + slot_entry(slots, hi - 1));
        assert((entries_range(slots, lo, mid) + entries_range(slots, mid, hi - 1)) + slot_entry(
            slots,
            hi - 1,
        ) == entries_range(slots, lo, mid) + (entries_range(slots, mid, hi - 1) + slot_entry(
            slots,
            hi - 1,
        )));
    }
}

/// The entries of a range depend on the slots of that range only.
pub proof fn lemma_entries_agree<T>(
    a: Seq<Option<(usize, T)>>,
    b: Seq<Option<(usize, T)>>,
    lo: int,
    hi: int,
)
    requires
        0 <= lo,
        hi <= a.len(),
        hi <= b.len(),
        forall|i: int| lo <= i < hi ==> a[i] == b[i],
    ensures
        entries_range(a, lo, hi) == entries_range(b, lo, hi),
    decreases hi - lo,
{
    if lo < hi {
        lemma_entries_agree(a, b, lo, hi - 1);
    }
}

/// A range of empty slots has no entries.
pub proof fn lemma_entries_none<T>(slots: Seq<Option<(usize, T)>>, lo: int, hi: int)
    requires
        0 <= lo,
        hi <= slots.len(),
        forall|i: int| lo <= i < hi ==> slots[i].is_none(),
    ensures
        entries_range(slots, lo, hi) == Seq::<(Id, T)>::empty(),
    decreases hi - lo,
{
    if lo < hi {
        lemma_entries_none(slots, lo, hi - 1);
    }
}

/// The range of one slot is that slot's entry.
pub proof fn lemma_entries_single<T>(slots: Seq<Option<(usize, T)>>, i: int)
    ensures
        entries_range(slots, i, i + 1) == slot_entry(slots, i),
{
    assert(entries_range(slots, i, i) == Seq::<(Id, T)>::empty());
    assert(Seq::<(Id, T)>::empty() + slot_entry(slots, i) == slot_entry(slots, i));
}

/// Every entry of a range names an occupied slot of the range and carries
/// that slot's generation and value, and the entries come by rising index.
pub proof fn lemma_entries_sound<T>(slots: Seq<Option<(usize, T)>>, lo: int, hi: int)
    requires
        0 <= lo,
        hi <= slots.len(),
        slots.len() <= usize::MAX,
    ensures
        forall|k: int|
            0 <= k < entries_range(slots, lo, hi).len() ==> {
                let e = #[trigger] entries_range(slots, lo, hi)[k];
                &&& lo <= e.0.index < hi
                &&& slots[e.0.index as int] == Some((e.0.identifier, e.1))
            },
        forall|j: int, k: int|
            0 <= j < k < entries_range(slots, lo, hi).len() ==> (#[trigger] entries_range(
                slots,
                lo,
                hi,
            )[j]).0.index < (#[trigger] entries_range(slots, lo, hi)[k]).0.index,
    decreases hi - lo,
{
    if lo < hi {
        lemma_entries_sound(slots, lo, hi - 1);
    }
}

/// Every occupied slot of a range has its entry.
pub proof fn lemma_entries_complete<T>(slots: Seq<Option<(usize, T)>>, lo: int, hi: int, i: int)
    requires
        0 <= lo <= i < hi,
        hi <= slots.len(),
        slots.len() <= usize::MAX,
        slots[i].is_some(),
    ensures
        entries_range(slots, lo, hi).contains(
            (Id { index: i as usize, identifier: (slots[i]->0).0 }, (slots[i]->0).1),
        ),
    decreases hi - lo,
{
    let e = (Id { index: i as usize, identifier: (slots[i]->0).0 }, (slots[i]->0).1);
    let front = entries_range(slots, lo, hi - 1);
    let back = slot_entry(slots, hi - 1);
    if i == hi - 1 {
        assert(back[0] == e);
        assert((front + back)[front.len() as int] == e);
    } else {
        lemma_entries_complete(slots, lo, hi - 1, i);
        let k = choose|k: int| 0 <= k < front.len() && front[k] == e;
        assert((front + back)[k] == e);
    }
}

/// Changing one slot changes the entries at that slot's place only.
pub proof fn lemma_entries_update<T>(slots: Seq<Option<(usize, T)>>, k: int, x: Option<(usize, T)>)
    requires
        0 <= k < slots.len(),
    ensures
        entries_range(slots, 0, slots.len() as int) == entries_range(slots, 0, k) + slot_entry(
            slots,
            k,
        ) + entries_range(slots, k + 1, slots.len() as int),
        entries_range(slots.update(k, x), 0, slots.len() as int) == entries_range(slots, 0, k)
            + slot_entry(slots.update(k, x), k) + entries_range(slots, k + 1, slots.len() as int),
{
    let n = slots.len() as int;
    let changed = slots.update(k, x);
    lemma_entries_split(slots, 0, k, n);
    lemma_entries_split(slots, k, k + 1, n);
    lemma_entries_single(slots, k);
    lemma_entries_split(changed, 0, k, n);
    lemma_entries_split(changed, k, k + 1, n);
    lemma_entries_single(changed, k);
    lemma_entries_agree(slots, changed, 0, k);
    lemma_entries_agree(slots, changed, k + 1, n);
    let a = entries_range(slots, 0, k);
    let c = entries_range(slots, k + 1, n);
    assert(a + (slot_entry(slots, k) + c) == a + slot_entry(slots, k) + c);
    assert(a + (slot_entry(changed, k) + c) == a + slot_entry(changed, k) + c);
}

/// The handles of a sequence of entries.
pub open spec fn entry_ids<T>(entries: Seq<(Id, T)>) -> Seq<Id> {
    entries.map_values(|e: (Id, T)| e.0)
}

/// The values of a sequence of entries, without their order.
pub open spec fn entry_values<T>(entries: Seq<(Id, T)>) -> Multiset<T> {
    entries.map_values(|e: (Id, T)| e.1).to_multiset()
}

proof fn lemma_values_insert_at<T>(a: Seq<(Id, T)>, c: Seq<(Id, T)>, e: (Id, T))
    ensures
        entry_values(a + seq![e] + c) == entry_values(a + c).insert(e.1),
{
    let f = |e: (Id, T)| e.1;
    let whole = a + c;
    assert(a + seq![e] + c =~= whole.insert(a.len() as int, e));
    assert(whole.insert(a.len() as int, e).map_values(f) =~= whole.map_values(f).insert(
        a.len() as int,
        e.1,
    ));
    vstd::seq_lib::to_multiset_insert(whole.map_values(f), a.len() as int, e.1);
}

impl<T> ArenaView<T> {
    /// An empty arena is consistent and holds nothing.
    pub proof fn lemma_empty()
        ensures
            Self::empty().wf(),
            Self::empty().len() == 0,
            Self::empty().map() == Map::<Id, T>::empty(),
            Self::empty().values() == Multiset::<T>::empty(),
    {
        let e = Self::empty();
        assert(e.entries() == Seq::<(Id, T)>::empty());
        assert(e.map() =~= Map::<Id, T>::empty());
        assert(e.entries().map_values(|e: (Id, T)| e.1) =~= Seq::<T>::empty());
        vstd::seq_lib::to_multiset_len(Seq::<T>::empty());
        assert(e.values().len() == 0);
        assert(e.values() =~= Multiset::<T>::empty());
    }

    /// The free stack is never longer than the arena.
    pub proof fn lemma_len(self)
        requires
            self.wf(),
        ensures
            self.len() == self.slots.len() - self.free.len(),
            self.values().len() == self.len(),
    {
        let vals = self.entries().map_values(|e: (Id, T)| e.1);
        vstd::seq_lib::to_multiset_len(vals);
    }

    /// The entries are the valid handles with their values, each once, by
    /// rising slot index.
    pub proof fn lemma_entries(self)
        requires
            self.wf(),
        ensures
            forall|k: int|
                0 <= k < self.entries().len() ==> self.contains((#[trigger] self.entries()[k]).0)
                    && self.get(self.entries()[k].0) == self.entries()[k].1,
            forall|id: Id| #[trigger]
                self.contains(id) ==> self.entries().contains((id, self.get(id))),
            forall|j: int, k: int|
                0 <= j < k < self.entries().len() ==> (#[trigger] self.entries()[j]).0.index < (
                #[trigger] self.entries()[k]).0.index,
    {
        let n = self.slots.len() as int;
        lemma_entries_sound(self.slots, 0, n);
        assert forall|id: Id| #[trigger] self.contains(id) implies self.entries().contains(
            (id, self.get(id)),
        ) by {
            lemma_entries_complete(self.slots, 0, n, id.index as int);
        }
    }

    /// A value is stored exactly when some valid handle names it.
    pub proof fn lemma_values(self, value: T)
        requires
            self.wf(),
        ensures
            self.values().count(value) > 0 <==> exists|id: Id| #[trigger]
                self.contains(id) && self.get(id) == value,
    {
        let entries = self.entries();
        let stored = entries.map_values(|e: (Id, T)| e.1);
        self.lemma_entries();
        vstd::seq_lib::to_multiset_contains(stored, value);
        if self.values().count(value) > 0 {
            let k = choose|k: int| 0 <= k < stored.len() && stored[k] == value;
            assert(self.contains(entries[k].0) && self.get(entries[k].0) == value);
        }
        if exists|id: Id| #[trigger] self.contains(id) && self.get(id) == value {
            let id = choose|id: Id| #[trigger] self.contains(id) && self.get(id) == value;
            let k = choose|k: int| 0 <= k < entries.len() && entries[k] == (id, value);
            assert(stored[k] == value);
        }
    }

    /// Insertion keeps the arena consistent, leaves every other handle as it
    /// was, and returns a handle that was not valid before, whose generation
    /// is above every generation handed out so far.
    pub proof fn lemma_insert(self, value: T)
        requires
            self.wf(),
            self.generation < usize::MAX,
        ensures
            self.insert(value).wf(),
            !self.contains(self.insert_id()),
            self.insert(value).map() == self.map().insert(self.insert_id(), value),
            self.insert(value).len() == self.len() + 1,
            self.insert(value).values() == self.values().insert(value),
            self.insert_id().identifier > self.generation,
            self.insert(value).generation == self.insert_id().identifier,
            forall|i: int|
                0 <= i < self.slots.len() ==> (#[trigger] self.slots[i] matches Some((g, _))
                    ==> g < self.insert_id().identifier),
    {
        let id = self.insert_id();
        let after = self.insert(value);
        let n = self.slots.len() as int;
        let e = (id, value);
        if self.free.len() > 0 {
            let last = self.free.len() - 1;
            let k = id.index as int;
            assert(self.free[last] == id.index);
            lemma_entries_update(self.slots, k, Some((id.identifier, value)));
            let a = entries_range(self.slots, 0, k);
            let c = entries_range(self.slots, k + 1, n);
            assert(slot_entry(self.slots, k) == Seq::<(Id, T)>::empty());
            assert(slot_entry(after.slots, k) == seq![e]);
            assert(a + Seq::<(Id, T)>::empty() + c == a + c);
            lemma_values_insert_at(a, c, e);
            assert forall|j: int| 0 <= j < after.free.len() implies (#[trigger] after.free[j])
                < after.slots.len() && after.slots[after.free[j] as int].is_none() by {
                assert(after.free[j] == self.free[j]);
            }
            assert forall|i: int|
                0 <= i < after.slots.len() && (#[trigger] after.slots[i]).is_none()
                    implies after.free.contains(i as usize) by {
                assert(self.slots[i].is_none());
                let j = choose|j: int| 0 <= j < self.free.len() && self.free[j] == i as usize;
                assert(after.free[j] == i as usize);
            }
        } else {
            lemma_entries_split(after.slots, 0, n, n + 1);
            lemma_entries_single(after.slots, n);
            lemma_entries_agree(self.slots, after.slots, 0, n);
            let a = entries_range(self.slots, 0, n);
            assert(slot_entry(after.slots, n) == seq![e]);
            assert(a + seq![e] + Seq::<(Id, T)>::empty() == a + seq![e]);
            assert(a + Seq::<(Id, T)>::empty() == a);
            lemma_values_insert_at(a, Seq::<(Id, T)>::empty(), e);
            assert forall|i: int|
                0 <= i < after.slots.len() && (#[trigger] after.slots[i]).is_none()
                    implies after.free.contains(i as usize) by {
                assert(self.slots[i].is_none());
            }
        }
        assert(after.map() =~= self.map().insert(id, value));
    }

    /// Removal through a valid handle keeps the arena consistent, ends the
    /// validity of that handle and leaves every other handle as it was.
    pub proof fn lemma_remove(self, id: Id)
        requires
            self.wf(),
            self.contains(id),
        ensures
            self.remove(id).wf(),
            !self.remove(id).contains(id),
            self.remove(id).map() == self.map().remove(id),
            self.remove(id).len() == self.len() - 1,
            self.remove(id).values() == self.values().remove(self.get(id)),
            self.values().count(self.get(id)) > 0,
    {
        let after = self.remove(id);
        let n = self.slots.len() as int;
        let k = id.index as int;
        let e = (id, self.get(id));
        lemma_entries_update(self.slots, k, None);
        let a = entries_range(self.slots, 0, k);
        let c = entries_range(self.slots, k + 1, n);
        assert(slot_entry(self.slots, k) == seq![e]);
        assert(slot_entry(after.slots, k) == Seq::<(Id, T)>::empty());
        assert(a + Seq::<(Id, T)>::empty() + c == a + c);
        lemma_values_insert_at(a, c, e);
        assert(self.values() == after.values().insert(e.1));
        assert(after.values() =~= self.values().remove(e.1));
        assert(after.free.no_duplicates()) by {
            assert forall|i: int, j: int|
                0 <= i < after.free.len() && 0 <= j < after.free.len() && i != j
                    implies after.free[i] != after.free[j] by {
                if i < self.free.len() {
                    assert(self.slots[self.free[i] as int].is_none());
                }
                if j < self.free.len() {
                    assert(self.slots[self.free[j] as int].is_none());
                }
            }
        }
        assert forall|i: int|
            0 <= i < after.slots.len() && (#[trigger] after.slots[i]).is_none()
                implies after.free.contains(i as usize) by {
            if i == k {
                assert(after.free[self.free.len() as int] == i as usize);
            } else {
                assert(self.slots[i].is_none());
                let j = choose|j: int| 0 <= j < self.free.len() && self.free[j] == i as usize;
                assert(after.free[j] == i as usize);
            }
        }
        assert forall|j: int| 0 <= j < after.free.len() implies (#[trigger] after.free[j])
            < after.slots.len() && after.slots[after.free[j] as int].is_none() by {
            if j < self.free.len() {
                assert(after.free[j] == self.free[j]);
            }
        }
        assert(after.map() =~= self.map().remove(id));
    }

    /// Replacement through a valid handle keeps the arena consistent and
    /// changes the value of that handle only.
    pub proof fn lemma_update(self, id: Id, value: T)
        requires
            self.wf(),
            self.contains(id),
        ensures
            self.update(id, value).wf(),
            self.update(id, value).map() == self.map().insert(id, value),
            self.update(id, value).len() == self.len(),
            self.update(id, value).values() == self.values().remove(self.get(id)).insert(value),
    {
        let after = self.update(id, value);
        let n = self.slots.len() as int;
        let k = id.index as int;
        let e = (id, self.get(id));
        let e2 = (id, value);
        lemma_entries_update(self.slots, k, Some((id.identifier, value)));
        let a = entries_range(self.slots, 0, k);
        let c = entries_range(self.slots, k + 1, n);
        assert(slot_entry(self.slots, k) == seq![e]);
        assert(slot_entry(after.slots, k) == seq![e2]);
        lemma_values_insert_at(a, c, e);
        lemma_values_insert_at(a, c, e2);
        assert(self.values().remove(e.1) =~= entry_values(a + c));
        assert forall|i: int|
            0 <= i < after.slots.len() && (#[trigger] after.slots[i]).is_none()
                implies after.free.contains(i as usize) by {
            assert(self.slots[i].is_none());
        }
        assert(after.map() =~= self.map().insert(id, value));
    }
}

/// The arena: values in slots, the stack of freed slots and the newest
/// generation handed out.
#[derive(Debug)]
pub struct IdMap<T> {
    data: Vec<Item<T>>,
    empty_indexes: Vec<usize>,
    last_identifier: usize,
}

/// What a slot holds in the model.
pub closed spec fn slot_view<T>(item: Item<T>) -> Option<(usize, T)> {
    match item.data {
        Some(v) => Some((item.identifier, v)),
        None => None,
    }
}

impl<T> View for IdMap<T> {
    type V = ArenaView<T>;

    closed spec fn view(&self) -> ArenaView<T> {
        ArenaView {
            slots: self.data@.map_values(|item: Item<T>| slot_view(item)),
            free: self.empty_indexes@,
            generation: self.last_identifier,
        }
    }
}

impl<T> Default for IdMap<T> {
    fn default() -> (map: Self)
        ensures
            map@ == ArenaView::<T>::empty(),
            map.wf(),
    {
        let map = Self { data: Vec::new(), empty_indexes: Vec::new(), last_identifier: 0 };
        proof {
            assert(map@.slots =~= Seq::empty());
            ArenaView::<T>::lemma_empty();
        }
        map
    }
}

impl<T> IdMap<T> {
    /// Consistency of the arena (see [`ArenaView::wf`]).
    pub open spec fn wf(&self) -> bool {
        self@.wf()
    }

    /// An arena can take one more value while generations are left.
    pub open spec fn has_room(&self) -> bool {
        self@.generation < usize::MAX
    }

    /// An empty arena.
    pub fn new() -> (map: Self)
        ensures
            map@ == ArenaView::<T>::empty(),
            map.wf(),
    {
        Self::default()
    }

    /// Number of stored values.
    pub fn len(&self) -> (n: usize)
        requires
            self.wf(),
        ensures
            n == self@.len(),
    {
        proof {
            self@.lemma_len();
        }
        self.data.len() - self.empty_indexes.len()
    }

    /// Stores `item` in the slot freed last, or in a new slot when none is
    /// free, and returns its handle, which carries a generation never
    /// handed out before.
    pub fn push(&mut self, item: T) -> (id: Id)
        requires
            old(self).wf(),
            old(self).has_room(),
        ensures
            final(self).wf(),
            final(self)@ == old(self)@.insert(item),
            id == old(self)@.insert_id(),
            !old(self)@.contains(id),
            final(self)@.map() == old(self)@.map().insert(id, item),
            final(self)@.len() == old(self)@.len() + 1,
            final(self)@.values() == old(self)@.values().insert(item),
            id.identifier > old(self)@.generation,
            final(self)@.contains(id),
            final(self)@.get(id) == item,
            final(self)@.same_but_at(old(self)@, id),
    {
        proof {
            old(self)@.lemma_insert(item);
            old(self)@.lemma_insert_frame(item);
        }
        self.last_identifier += 1;
        let reused = self.empty_indexes.pop();
        match reused {
            Some(index) => {
                self.data.set(index, Item::new(self.last_identifier, item));
                assert(self@.slots =~= old(self)@.insert(item).slots);
                assert(self@.free =~= old(self)@.insert(item).free);
                Id { index, identifier: self.last_identifier }
            },
            None => {
                self.data.push(Item::new(self.last_identifier, item));
                assert(self@.slots =~= old(self)@.insert(item).slots);
                Id { index: self.data.len() - 1, identifier: self.last_identifier }
            },
        }
    }

    /// Whether `id` names a stored value: its slot is occupied under the
    /// handle's generation.
    pub fn contains(&self, id: Id) -> (found: bool)
        ensures
            found == self@.contains(id),
    {
        if id.index < self.data.len() {
            self.data[id.index].is_some() && self.data[id.index].identifier == id.identifier
        } else {
            false
        }
    }

    /// Removes the value named by `id` and hands it out; does nothing when
    /// the handle is not valid.
    pub fn take(&mut self, id: Id) -> (taken: Option<T>)
        requires
            old(self).wf(),
        ensures
            final(self).wf(),
            final(self)@ == old(self)@.remove(id),
            taken == (if old(self)@.contains(id) {
                Some(old(self)@.get(id))
            } else {
                None
            }),
            !final(self)@.contains(id),
            final(self)@.map() == old(self)@.map().remove(id),
            final(self)@.same_but_at(old(self)@, id),
    {
        proof {
            old(self)@.lemma_remove_frame(id);
        }
        if self.contains(id) {
            proof {
                old(self)@.lemma_remove(id);
            }
            self.empty_indexes.push(id.index);
            let taken = self.data[id.index].take();
            assert(self@.slots =~= old(self)@.remove(id).slots);
            taken
        } else {
            assert(self@.map().remove(id) =~= self@.map());
            None
        }
    }

    /// Removes the value named by `id`; does nothing when the handle is not
    /// valid.
    pub fn delete(&mut self, id: Id)
        requires
            old(self).wf(),
        ensures
            final(self).wf(),
            final(self)@ == old(self)@.remove(id),
            !final(self)@.contains(id),
            final(self)@.map() == old(self)@.map().remove(id),
            final(self)@.same_but_at(old(self)@, id),
    {
        let _ = self.take(id);
    }

    /// The value named by `id`, if the handle is valid.
    pub fn get_ref(&self, id: Id) -> (value: Option<&T>)
        ensures
            match value {
                Some(v) => self@.contains(id) && *v == self@.get(id),
                None => !self@.contains(id),
            },
    {
        if self.contains(id) {
            self.data[id.index].as_ref()
        } else {
            None
        }
    }

    /// Replaces the value named by `id`; does nothing when the handle is
    /// not valid, so a removed value is never brought back.
    pub fn update(&mut self, id: Id, new_data: T)
        requires
            old(self).wf(),
        ensures
            final(self).wf(),
            final(self)@ == old(self)@.update(id, new_data),
            final(self)@.contains(id) == old(self)@.contains(id),
            old(self)@.contains(id) ==> final(self)@.map() == old(self)@.map().insert(
                id,
                new_data,
            ),
            old(self)@.contains(id) ==> final(self)@.get(id) == new_data,
            !old(self)@.contains(id) ==> final(self)@ == old(self)@,
            final(self)@.same_but_at(old(self)@, id),
    {
        if self.contains(id) {
            proof {
                old(self)@.lemma_update(id, new_data);
                old(self)@.lemma_update_frame(id, new_data);
            }
            self.data.set(id.index, Item::new(id.identifier, new_data));
            assert(self@.slots =~= old(self)@.update(id, new_data).slots);
        }
    }
}

impl<T> IdMap<T> {
    /// Exclusive access to the value named by `id`, if the handle is valid.
    /// Whatever the caller writes through the borrow becomes the value of
    /// that handle; nothing else changes.
    pub fn get_mut(&mut self, id: Id) -> (value: Option<&mut T>)
        requires
            old(self).wf(),
        ensures
            match value {
                Some(v) => old(self)@.contains(id) && *v == old(self)@.get(id) && final(self)@
                    == old(self)@.update(id, *final(v)),
                None => !old(self)@.contains(id) && final(self)@ == old(self)@,
            },
            final(self).wf(),
    {
        if self.contains(id) {
            proof {
                let before = self@;
                let items = self.data@;
                assert forall|x: T| (#[trigger] before.update(id, x)).wf() by {
                    before.lemma_update(id, x);
                }
                assert forall|item: Item<T>|
                    item.identifier == id.identifier && item.data.is_some() implies (
                #[trigger] items.update(id.index as int, item)).map_values(
                    |item: Item<T>| slot_view(item),
                ) == before.update(id, item.data->0).slots by {
                    assert(items.update(id.index as int, item).map_values(
                        |item: Item<T>| slot_view(item),
                    ) =~= before.update(id, item.data->0).slots);
                }
            }
            self.data[id.index].as_mut()
        } else {
            None
        }
    }

    /// The valid handles, by rising slot index.
    pub fn ids(&self) -> (ids: Vec<Id>)
        requires
            self.wf(),
        ensures
            ids@ == entry_ids(self@.entries()),
    {
        let ghost entries = self@.entries();
        let mut ids: Vec<Id> = Vec::new();
        let mut iter = self.iter();
        let ghost mut seen: int = 0;
        proof {
            assert(entries.subrange(0, entries.len() as int) =~= entries);
            assert(ids@ =~= entry_ids(entries.subrange(0, 0)));
        }
        loop
            invariant_except_break
                iter.wf(),
                0 <= seen <= entries.len(),
                iter.remaining() == entries.subrange(seen, entries.len() as int),
                ids@ == entry_ids(entries.subrange(0, seen)),
            ensures
                ids@ == entry_ids(entries),
            decreases entries.len() - seen,
        {
            match iter.next() {
                Some(item) => {
                    let ghost was = ids@;
                    ids.push(item.id);
                    proof {
                        assert(entries.subrange(seen, entries.len() as int)[0] == entries[seen]);
                        assert(entries.subrange(seen, entries.len() as int).drop_first()
                            =~= entries.subrange(seen + 1, entries.len() as int));
                        assert(entry_ids(entries.subrange(0, seen + 1)) =~= entry_ids(
                            entries.subrange(0, seen),
                        ).push(item.id));
                        seen = seen + 1;
                    }
                },
                None => {
                    proof {
                        assert(entries.subrange(0, entries.len() as int) =~= entries);
                    }
                    break ;
                },
            }
        }
        ids
    }

    /// Removes the values that `keep` turns down. Every value is offered
    /// once, by rising slot, with its handle. The values that stay keep
    /// their handles.
    pub fn filter<F: Fn(Id, &T) -> bool>(&mut self, keep: F)
        requires
            old(self).wf(),
            forall|id: Id, value: &T| call_requires(keep, (id, value)),
        ensures
            final(self).wf(),
            final(self)@.generation == old(self)@.generation,
            forall|id: Id| #[trigger]
                final(self)@.contains(id) ==> old(self)@.contains(id) && final(self)@.get(id)
                    == old(self)@.get(id) && call_ensures(keep, (id, &old(self)@.get(id)), true),
            forall|id: Id|
                #![trigger old(self)@.contains(id)]
                old(self)@.contains(id) && !final(self)@.contains(id) ==> call_ensures(
                    keep,
                    (id, &old(self)@.get(id)),
                    false,
                ),
    {
        let ids = self.ids();
        let ghost before = self@;
        let ghost entries = before.entries();
        proof {
            before.lemma_entries();
        }
        let mut i: usize = 0;
        while i < ids.len()
            invariant
                i <= ids.len(),
                ids@ == entry_ids(entries),
                entries == before.entries(),
                before.wf(),
                self.wf(),
                forall|id: Id, value: &T| call_requires(keep, (id, value)),
                self@.generation == before.generation,
                forall|k: int|
                    0 <= k < entries.len() ==> before.contains((#[trigger] entries[k]).0)
                        && before.get(entries[k].0) == entries[k].1,
                forall|j: int, k: int|
                    0 <= j < k < entries.len() ==> (#[trigger] entries[j]).0.index < (
                    #[trigger] entries[k]).0.index,
                forall|id: Id| #[trigger]
                    self@.contains(id) ==> before.contains(id) && self@.get(id) == before.get(id),
                forall|k: int| i <= k < entries.len() ==> self@.contains((#[trigger] entries[k]).0),
                forall|k: int|
                    0 <= k < i ==> call_ensures(
                        keep,
                        ((#[trigger] entries[k]).0, &entries[k].1),
                        self@.contains(entries[k].0),
                    ),
            decreases ids.len() - i,
        {
            let id = ids[i];
            let ghost now = self@;
            proof {
                assert(id == entries[i as int].0);
                assert(now.contains(id));
            }
            let turned_down = match self.get_ref(id) {
                Some(value) => !keep(id, value),
                None => false,
            };
            if turned_down {
                proof {
                    now.lemma_remove(id);
                    now.lemma_remove_frame(id);
                }
                self.delete(id);
                proof {
                    assert forall|k: int| i + 1 <= k < entries.len() implies self@.contains(
                        (#[trigger] entries[k]).0,
                    ) by {
                        assert(entries[i as int].0.index < entries[k].0.index);
                    }
                    assert forall|k: int| 0 <= k < i + 1 implies call_ensures(
                        keep,
                        ((#[trigger] entries[k]).0, &entries[k].1),
                        self@.contains(entries[k].0),
                    ) by {
                        if k < i {
                            assert(entries[k].0.index < entries[i as int].0.index);
                            assert(self@.contains(entries[k].0) == now.contains(entries[k].0));
                        }
                    }
                }
            }
            i += 1;
        }
        proof {
            assert forall|id: Id| #[trigger] self@.contains(id) implies before.contains(id)
                && self@.get(id) == before.get(id) && call_ensures(
                keep,
                (id, &before.get(id)),
                true,
            ) by {
                assert(before.contains(id));
                let k = choose|k: int| 0 <= k < entries.len() && entries[k] == (id, before.get(id));
                assert(entries[k].0 == id);
            }
            assert forall|id: Id|
                #![trigger before.contains(id)]
                before.contains(id) && !self@.contains(id) implies call_ensures(
                keep,
                (id, &before.get(id)),
                false,
            ) by {
                let k = choose|k: int| 0 <= k < entries.len() && entries[k] == (id, before.get(id));
                assert(entries[k].0 == id);
            }
        }
    }

    /// A cursor over the stored values, by rising slot index.
    pub fn iter(&self) -> (iter: IdMapIter<'_, T>)
        requires
            self.wf(),
        ensures
            iter.wf(),
            iter.arena() == self@,
            iter.remaining() == self@.entries(),
    {
        IdMapIter { map: self, index: 0 }
    }
}

/// Cursor over the occupied slots of an arena.
pub struct IdMapIter<'a, T> {
    map: &'a IdMap<T>,
    index: usize,
}

impl<'a, T> IdMapIter<'a, T> {
    /// The arena that the cursor walks.
    pub closed spec fn arena(&self) -> ArenaView<T> {
        self.map@
    }

    /// The cursor stands inside a consistent arena.
    pub closed spec fn wf(&self) -> bool {
        self.map.wf() && self.index <= self.map.data@.len()
    }

    /// What the cursor has still to yield, in order.
    pub closed spec fn remaining(&self) -> Seq<(Id, T)> {
        entries_range(self.map@.slots, self.index as int, self.map@.slots.len() as int)
    }

    /// The next stored value with its handle, or `None` at the end.
    pub fn next(&mut self) -> (item: Option<RefItem<'a, T>>)
        requires
            old(self).wf(),
        ensures
            final(self).wf(),
            final(self).arena() == old(self).arena(),
            match item {
                Some(it) => old(self).remaining().len() > 0 && (it.id, *it.data) == old(self).remaining()[0] && final(self).remaining() == old(self).remaining().drop_first(),
                None => old(self).remaining().len() == 0 && final(self).remaining().len() == 0,
            },
    {
        let ghost slots = self.map@.slots;
        let ghost n = slots.len() as int;
        let ghost start = self.index as int;
        while self.index < self.map.data.len()
            invariant
                self.map == old(self).map,
                start == old(self).index,
                slots == self.map@.slots,
                n == slots.len(),
                n == self.map.data@.len(),
                self.map.wf(),
                start <= self.index <= n,
                entries_range(slots, start, n) == entries_range(slots, self.index as int, n),
            decreases n - self.index,
        {
            let i = self.index;
            self.index = i + 1;
            proof {
                lemma_entries_split(slots, i as int, i + 1, n);
                lemma_entries_single(slots, i as int);
            }
            if self.map.data[i].is_some() {
                let id = Id { index: i, identifier: self.map.data[i].identifier };
                let data = self.map.data[i].as_ref().unwrap();
                proof {
                    let rest = entries_range(slots, i + 1, n);
                    assert(slots[i as int] == slot_view(self.map.data@[i as int]));
                    assert(slot_entry(slots, i as int) =~= seq![(id, *data)]);
                    assert((seq![(id, *data)] + rest).drop_first() =~= rest);
                    assert(old(self).remaining() == seq![(id, *data)] + rest);
                    assert(self.remaining() == rest);
                }
                return Some(RefItem { id, data });
            }
            proof {
                assert(slot_entry(slots, i as int) == Seq::<(Id, T)>::empty());
                assert(Seq::<(Id, T)>::empty() + entries_range(slots, i + 1, n)
                    == entries_range(slots, i + 1, n));
            }
        }
        None
    }
}

/// One change of an arena.
pub enum ArenaOp<T> {
    Insert(T),
    Remove(Id),
    Update(Id, T),
}

impl<T> ArenaOp<T> {
    /// The change removes the value named by `id`.
    pub open spec fn removes(self, id: Id) -> bool {
        self matches ArenaOp::Remove(r) && r == id
    }

    /// The change replaces the value named by `id`.
    pub open spec fn replaces(self, id: Id) -> bool {
        self matches ArenaOp::Update(u, _) && u == id
    }
}

impl<T> ArenaView<T> {
    /// The arena after one change.
    pub open spec fn step(self, op: ArenaOp<T>) -> Self {
        match op {
            ArenaOp::Insert(value) => self.insert(value),
            ArenaOp::Remove(id) => self.remove(id),
            ArenaOp::Update(id, value) => self.update(id, value),
        }
    }

    /// The arena after a sequence of changes, first to last.
    pub open spec fn run(self, ops: Seq<ArenaOp<T>>) -> Self
        decreases ops.len(),
    {
        if ops.len() == 0 {
            self
        } else {
            self.step(ops[0]).run(ops.drop_first())
        }
    }

    /// Replacement through a valid handle leaves the validity of every
    /// handle and the value of every other handle as they were.
    pub proof fn lemma_update_frame(self, id: Id, value: T)
        requires
            self.wf(),
            self.contains(id),
        ensures
            forall|other: Id| #[trigger]
                self.update(id, value).contains(other) == self.contains(other),
            forall|other: Id|
                other != id && self.contains(other) ==> #[trigger] self.update(id, value).get(
                    other,
                ) == self.get(other),
            self.update(id, value).get(id) == value,
            self.update(id, value).generation == self.generation,
    {
        assert forall|other: Id| other != id && self.contains(other) implies #[trigger] self.update(
            id,
            value,
        ).get(other) == self.get(other) by {
            if other.index == id.index {
                assert(other.identifier == id.identifier);
            }
        }
    }

    /// Removal leaves the validity and the value of every other handle as
    /// they were.
    pub proof fn lemma_remove_frame(self, id: Id)
        requires
            self.wf(),
        ensures
            forall|other: Id| #[trigger]
                self.remove(id).contains(other) == (self.contains(other) && other != id),
            forall|other: Id|
                self.contains(other) && other != id ==> #[trigger] self.remove(id).get(other)
                    == self.get(other),
            self.remove(id).generation == self.generation,
    {
        assert forall|other: Id| #[trigger]
            self.remove(id).contains(other) == (self.contains(other) && other != id) by {
            if self.contains(id) && other.index == id.index && self.contains(other) {
                assert(other.identifier == id.identifier);
            }
        }
        assert forall|other: Id| self.contains(other) && other != id implies #[trigger] self.remove(
            id,
        ).get(other) == self.get(other) by {
            if self.contains(id) && other.index == id.index {
                assert(other.identifier == id.identifier);
            }
        }
    }

    /// Insertion leaves the validity and the value of every other handle
    /// as they were.
    pub proof fn lemma_insert_frame(self, value: T)
        requires
            self.wf(),
            self.generation < usize::MAX,
        ensures
            forall|other: Id| #[trigger]
                self.insert(value).contains(other) == (self.contains(other) || other
                    == self.insert_id()),
            forall|other: Id|
                self.contains(other) ==> #[trigger] self.insert(value).get(other) == self.get(
                    other,
                ),
            self.insert(value).get(self.insert_id()) == value,
            !self.issued(self.insert_id()),
            self.insert(value).generation == self.generation + 1,
    {
        self.lemma_insert(value);
        let after = self.insert(value);
        let id = self.insert_id();
        assert forall|other: Id| #[trigger]
            after.contains(other) == (self.contains(other) || other == id) by {
            assert(after.map().dom().contains(other) == after.contains(other));
            assert(self.map().dom().contains(other) == self.contains(other));
        }
        assert forall|other: Id| self.contains(other) implies #[trigger] after.get(other)
            == self.get(other) by {
            assert(self.map().dom().contains(other));
            assert(after.map()[other] == self.map()[other]);
        }
        assert(after.map().dom().contains(id));
        assert(after.map()[id] == value);
    }

    /// Every handle but `id` is valid here exactly when it was valid in
    /// `before`, and names the value that it named there.
    pub open spec fn same_but_at(self, before: Self, id: Id) -> bool {
        forall|other: Id|
            other != id ==> (#[trigger] self.contains(other) == before.contains(other)) && (
            before.contains(other) ==> self.get(other) == before.get(other))
    }

    /// A handle whose generation has been handed out already.
    pub open spec fn issued(self, id: Id) -> bool {
        id.identifier <= self.generation
    }

    /// A handle that has been handed out and is no longer valid.
    pub open spec fn retired(self, id: Id) -> bool {
        self.issued(id) && !self.contains(id)
    }

    /// `self` is a later state of the arena `earlier`: no generation has
    /// been taken back, and no retired handle has become valid again.
    pub open spec fn succeeds(self, earlier: Self) -> bool {
        &&& earlier.generation <= self.generation
        &&& forall|id: Id| #[trigger] earlier.retired(id) ==> self.retired(id)
    }

    /// Every change leads to a later state.
    pub proof fn lemma_step_succeeds(self, op: ArenaOp<T>)
        requires
            self.wf(),
            self.generation < usize::MAX,
        ensures
            self.step(op).succeeds(self),
    {
        self.lemma_step(op);
        match op {
            ArenaOp::Insert(value) => {
                self.lemma_insert(value);
            },
            ArenaOp::Remove(id) => {},
            ArenaOp::Update(id, value) => {},
        }
    }

    /// One change keeps the arena consistent and never lowers the newest
    /// generation, which rises by one at most.
    pub proof fn lemma_step(self, op: ArenaOp<T>)
        requires
            self.wf(),
            self.generation < usize::MAX,
        ensures
            self.step(op).wf(),
            self.generation <= self.step(op).generation <= self.generation + 1,
    {
        match op {
            ArenaOp::Insert(value) => {
                self.lemma_insert(value);
            },
            ArenaOp::Remove(id) => {
                if self.contains(id) {
                    self.lemma_remove(id);
                }
            },
            ArenaOp::Update(id, value) => {
                if self.contains(id) {
                    self.lemma_update(id, value);
                }
            },
        }
    }

    /// Any sequence of changes keeps the arena consistent.
    pub proof fn law_run_consistent(self, ops: Seq<ArenaOp<T>>)
        requires
            self.wf(),
            self.generation + ops.len() <= usize::MAX,
        ensures
            self.run(ops).wf(),
            self.generation <= self.run(ops).generation <= self.generation + ops.len(),
        decreases ops.len(),
    {
        if ops.len() > 0 {
            self.lemma_step(ops[0]);
            self.step(ops[0]).law_run_consistent(ops.drop_first());
        }
    }

    /// A handle stays valid through every sequence of changes that does not
    /// remove it, and keeps its value when none of them replaces it.
    pub proof fn law_valid_until_removed(self, ops: Seq<ArenaOp<T>>, id: Id)
        requires
            self.wf(),
            self.generation + ops.len() <= usize::MAX,
            self.contains(id),
            forall|k: int| 0 <= k < ops.len() ==> !(#[trigger] ops[k]).removes(id),
        ensures
            self.run(ops).contains(id),
            (forall|k: int| 0 <= k < ops.len() ==> !(#[trigger] ops[k]).replaces(id))
                ==> self.run(ops).get(id) == self.get(id),
        decreases ops.len(),
    {
        if ops.len() > 0 {
            let op = ops[0];
            let rest = ops.drop_first();
            self.lemma_step(op);
            assert(!op.removes(id));
            match op {
                ArenaOp::Insert(value) => {
                    self.lemma_insert(value);
                    assert(self.insert(value).map().dom().contains(id));
                    assert(self.insert(value).map()[id] == self.map()[id]);
                },
                ArenaOp::Remove(other) => {},
                ArenaOp::Update(other, value) => {},
            }
            assert forall|k: int| 0 <= k < rest.len() implies !(#[trigger] rest[k]).removes(
                id,
            ) by {
                assert(rest[k] == ops[k + 1]);
            }
            self.step(op).law_valid_until_removed(rest, id);
            if forall|k: int| 0 <= k < ops.len() ==> !(#[trigger] ops[k]).replaces(id) {
                assert forall|k: int| 0 <= k < rest.len() implies !(#[trigger] rest[k]).replaces(
                    id,
                ) by {
                    assert(rest[k] == ops[k + 1]);
                }
                assert(!op.replaces(id));
            }
        }
    }

    /// A handle that has been handed out and is no longer valid never
    /// becomes valid again, whatever changes follow: a slot that is reused
    /// gets a generation that no earlier handle carries.
    pub proof fn law_removed_stays_invalid(self, ops: Seq<ArenaOp<T>>, id: Id)
        requires
            self.wf(),
            self.generation + ops.len() <= usize::MAX,
            self.issued(id),
            !self.contains(id),
        ensures
            !self.run(ops).contains(id),
        decreases ops.len(),
    {
        if ops.len() > 0 {
            let op = ops[0];
            self.lemma_step(op);
            match op {
                ArenaOp::Insert(value) => {
                    self.lemma_insert(value);
                },
                ArenaOp::Remove(other) => {},
                ArenaOp::Update(other, value) => {},
            }
            self.step(op).law_removed_stays_invalid(ops.drop_first(), id);
        }
    }

    /// The insertion that follows a removal reuses the freed slot under a
    /// strictly greater generation, and the removed handle stays invalid.
    pub proof fn law_reuse_raises_generation(self, id: Id, value: T)
        requires
            self.wf(),
            self.generation < usize::MAX,
            self.contains(id),
        ensures
            self.remove(id).insert_id().index == id.index,
            self.remove(id).insert_id().identifier > id.identifier,
            self.remove(id).insert(value).contains(self.remove(id).insert_id()),
            !self.remove(id).insert(value).contains(id),
    {
        self.lemma_remove(id);
        self.remove(id).lemma_insert(value);
    }
}

/// The arena that some parts make: slots with their generations and
/// values, the stack of free slots and the newest generation.
pub open spec fn parts_view<T>(slots: Seq<(usize, Option<T>)>, free: Seq<usize>, generation: usize)
    -> ArenaView<T> {
    ArenaView {
        slots: slots.map_values(
            |slot: (usize, Option<T>)|
                match slot.1 {
                    Some(value) => Some((slot.0, value)),
                    None => None,
                },
        ),
        free,
        generation,
    }
}

/// The entries of a range are as many as its occupied slots.
proof fn lemma_entries_count<T>(slots: Seq<Option<(usize, T)>>, hi: int)
    requires
        0 <= hi < slots.len(),
    ensures
        entries_range(slots, 0, hi + 1).len() == entries_range(slots, 0, hi).len() + (if slots[hi].is_some() {
            1int
        } else {
            0int
        }),
{
}

impl<T> IdMap<T> {
    /// Number of slots, occupied or not.
    pub fn slot_count(&self) -> (count: usize)
        ensures
            count == self@.slots.len(),
    {
        self.data.len()
    }

    /// The generation written in a slot and the value that the slot holds.
    pub fn slot(&self, index: usize) -> (slot: (usize, Option<&T>))
        requires
            index < self@.slots.len(),
        ensures
            match slot.1 {
                Some(value) => self@.slots[index as int] == Some((slot.0, *value)),
                None => self@.slots[index as int].is_none(),
            },
    {
        (self.data[index].identifier, self.data[index].as_ref())
    }

    /// The stack of free slots.
    pub fn free_slots(&self) -> (free: &Vec<usize>)
        ensures
            free@ == self@.free,
    {
        &self.empty_indexes
    }

    /// The newest generation handed out.
    pub fn last_generation(&self) -> (generation: usize)
        ensures
            generation == self@.generation,
    {
        self.last_identifier
    }

    /// The arena of the given parts, if they are consistent. This is how
    /// an arena that has been written down is taken up again.
    pub fn from_parts(slots: Vec<(usize, Option<T>)>, free: Vec<usize>, generation: usize) -> (made:
        Option<Self>)
        ensures
            match made {
                Some(map) => map.wf() && map@ == parts_view(slots@, free@, generation),
                None => !parts_view(slots@, free@, generation).wf(),
            },
    {
        let ghost view = parts_view(slots@, free@, generation);
        let n = slots.len();
        if n > generation {
            return None;
        }
        let mut listed: Vec<bool> = Vec::new();
        let mut i: usize = 0;
        while i < n
            invariant
                i <= n,
                listed@.len() == i,
                forall|k: int| 0 <= k < i ==> !listed@[k],
            decreases n - i,
        {
            listed.push(false);
            i += 1;
        }
        let mut j: usize = 0;
        while j < free.len()
            invariant
                j <= free.len(),
                n == slots@.len(),
                listed@.len() == n,
                view == parts_view(slots@, free@, generation),
                forall|k: int|
                    0 <= k < j ==> (#[trigger] free@[k]) < n && view.slots[free@[k] as int].is_none()
                        && listed@[free@[k] as int],
                forall|a: int, b: int| 0 <= a < b < j ==> free@[a] != free@[b],
                forall|s: int|
                    0 <= s < n && listed@[s] ==> exists|k: int|
                        0 <= k < j && #[trigger] free@[k] == s,
            decreases free.len() - j,
        {
            let slot = free[j];
            if slot >= n {
                return None;
            }
            if slots[slot].1.is_some() {
                return None;
            }
            if listed[slot] {
                proof {
                    let k = choose|k: int| 0 <= k < j && #[trigger] free@[k] == slot;
                    assert(free@[k] == free@[j as int]);
                }
                return None;
            }
            let ghost before = listed@;
            listed.set(slot, true);
            proof {
                assert forall|s: int| 0 <= s < n && listed@[s] implies exists|k: int|
                    0 <= k < j + 1 && #[trigger] free@[k] == s by {
                    if s == slot {
                        assert(free@[j as int] == s);
                    } else {
                        assert(before[s]);
                        let k = choose|k: int| 0 <= k < j && #[trigger] free@[k] == s;
                        assert(free@[k] == s);
                    }
                }
                assert forall|a: int, b: int| 0 <= a < b < j + 1 implies free@[a] != free@[b] by {
                    if b == j {
                        assert(before[free@[a] as int]);
                    }
                }
            }
            j += 1;
        }
        let mut occupied: usize = 0;
        let mut s: usize = 0;
        while s < n
            invariant
                s <= n,
                n == slots@.len(),
                n == view.slots.len(),
                n <= generation,
                listed@.len() == n,
                view == parts_view(slots@, free@, generation),
                occupied == entries_range(view.slots, 0, s as int).len(),
                occupied <= s,
                forall|k: int|
                    0 <= k < free@.len() ==> (#[trigger] free@[k]) < n && view.slots[free@[k] as int].is_none()
                        && listed@[free@[k] as int],
                forall|a: int, b: int| 0 <= a < b < free@.len() ==> free@[a] != free@[b],
                forall|s: int|
                    0 <= s < n && listed@[s] ==> exists|k: int|
                        0 <= k < free@.len() && #[trigger] free@[k] == s,
                forall|t: int|
                    0 <= t < s ==> (match #[trigger] view.slots[t] {
                        Some((g, _)) => 1 <= g <= generation,
                        None => listed@[t],
                    }),
            decreases n - s,
        {
            proof {
                lemma_entries_count(view.slots, s as int);
            }
            match &slots[s].1 {
                Some(_) => {
                    if slots[s].0 < 1 || slots[s].0 > generation {
                        assert(view.slots[s as int] == Some((slots@[s as int].0, slots@[s as int].1->0)));
                        return None;
                    }
                    occupied += 1;
                },
                None => {
                    if !listed[s] {
                        proof {
                            assert(view.slots[s as int].is_none());
                            if view.free.contains(s) {
                                let k = choose|k: int| 0 <= k < free@.len() && free@[k] == s;
                                assert(listed@[free@[k] as int]);
                            }
                        }
                        return None;
                    }
                },
            }
            s += 1;
        }
        if free.len() > n || occupied != n - free.len() {
            return None;
        }
        proof {
            assert forall|t: int|
                0 <= t < view.slots.len() && (#[trigger] view.slots[t]).is_none()
                    implies view.free.contains(t as usize) by {
                assert(listed@[t]);
                let k = choose|k: int| 0 <= k < free@.len() && #[trigger] free@[k] == t;
                assert(view.free[k] == t as usize);
            }
            assert(view.wf());
        }
        let mut rest = slots;
        let mut backwards: Vec<Item<T>> = Vec::new();
        while rest.len() > 0
            invariant
                rest@.len() <= slots@.len(),
                rest@ == slots@.take(rest@.len() as int),
                backwards@.len() == slots@.len() - rest@.len(),
                forall|k: int|
                    0 <= k < backwards@.len() ==> slot_view(#[trigger] backwards@[k])
                        == view.slots[slots@.len() - 1 - k],
                view == parts_view(slots@, free@, generation),
            decreases rest.len(),
        {
            let ghost was = rest@;
            let slot = rest.pop().unwrap();
            proof {
                assert(slot == slots@[rest@.len() as int]);
                assert(rest@ =~= slots@.take(rest@.len() as int));
            }
            backwards.push(Item { identifier: slot.0, data: slot.1 });
        }
        let mut data: Vec<Item<T>> = Vec::new();
        while backwards.len() > 0
            invariant
                data@.len() + backwards@.len() == slots@.len(),
                forall|k: int|
                    0 <= k < backwards@.len() ==> slot_view(#[trigger] backwards@[k])
                        == view.slots[slots@.len() - 1 - k],
                forall|k: int| 0 <= k < data@.len() ==> slot_view(#[trigger] data@[k]) == view.slots[k],
                view.slots.len() == slots@.len(),
            decreases backwards.len(),
        {
            let ghost was = backwards@;
            let item = backwards.pop().unwrap();
            proof {
                assert(item == was[was.len() - 1]);
                assert forall|k: int| 0 <= k < backwards@.len() implies slot_view(
                    #[trigger] backwards@[k],
                ) == view.slots[slots@.len() - 1 - k] by {
                    assert(backwards@[k] == was[k]);
                }
            }
            let ghost done = data@;
            data.push(item);
            proof {
                assert forall|k: int| 0 <= k < data@.len() implies slot_view(#[trigger] data@[k])
                    == view.slots[k] by {
                    if k < done.len() {
                        assert(data@[k] == done[k]);
                    }
                }
            }
        }
        let map = Self { data, empty_indexes: free, last_identifier: generation };
        proof {
            assert(map@.slots =~= view.slots);
        }
        Some(map)
    }
}

/// Cursor over the occupied slots of an arena that hands the values out
/// for change.
pub struct IdMapIterMut<'a, T> {
    map: &'a mut IdMap<T>,
    index: usize,
}

impl<'a, T> IdMapIterMut<'a, T> {
    /// The arena that the cursor walks, as it is now.
    pub closed spec fn arena(&self) -> ArenaView<T> {
        self.map@
    }

    /// The slot at which the cursor stands.
    pub closed spec fn position(&self) -> int {
        self.index as int
    }

    /// The cursor stands inside a consistent arena.
    pub closed spec fn wf(&self) -> bool {
        self.map.wf() && self.index <= self.map.data@.len()
    }

    /// The next stored value with its handle, or `None` at the end.
    pub fn next(&mut self) -> (item: Option<MutItem<'_, T>>)
        requires
            old(self).wf(),
        ensures
            match item {
                Some(it) => {
                    &&& old(self).arena().contains(it.id)
                    &&& old(self).position() <= it.id.index
                    &&& *it.data == old(self).arena().get(it.id)
                    &&& forall|k: int|
                        old(self).position() <= k < it.id.index ==> (#[trigger] old(self).arena().slots[k]).is_none()
                    &&& final(self).position() == it.id.index + 1
                    &&& final(self).arena() == old(self).arena().update(it.id, *final(it.data))
                },
                None => {
                    &&& final(self).arena() == old(self).arena()
                    &&& forall|k: int|
                        old(self).position() <= k < old(self).arena().slots.len() ==> (
                        #[trigger] old(self).arena().slots[k]).is_none()
                },
            },
            final(self).wf(),
    {
        let mut found: Option<usize> = None;
        while self.index < self.map.data.len() && found.is_none()
            invariant
                self.wf(),
                self.map@ == old(self).map@,
                old(self).index <= self.index,
                found matches Some(i) ==> old(self).index <= i && self.index == i + 1
                    && self.map@.slots[i as int].is_some(),
                forall|k: int|
                    old(self).index <= k < (if found is Some {
                        self.index - 1
                    } else {
                        self.index as int
                    }) ==> (#[trigger] self.map@.slots[k]).is_none(),
            decreases self.map.data@.len() - self.index,
        {
            let i = self.index;
            self.index = i + 1;
            if self.map.data[i].is_some() {
                found = Some(i);
            }
        }
        match found {
            Some(i) => {
                let id = Id { index: i, identifier: self.map.data[i].identifier };
                proof {
                    let before = self.map@;
                    let items = self.map.data@;
                    assert(before.contains(id));
                    assert forall|x: T| (#[trigger] before.update(id, x)).wf() by {
                        before.lemma_update(id, x);
                    }
                    assert forall|item: Item<T>|
                        item.identifier == id.identifier && item.data.is_some() implies (
                    #[trigger] items.update(id.index as int, item)).map_values(
                        |item: Item<T>| slot_view(item),
                    ) == before.update(id, item.data->0).slots by {
                        assert(items.update(id.index as int, item).map_values(
                            |item: Item<T>| slot_view(item),
                        ) =~= before.update(id, item.data->0).slots);
                    }
                }
                match self.map.data[i].as_mut() {
                    Some(data) => Some(MutItem { id, data }),
                    None => None,
                }
            },
            None => None,
        }
    }
}

impl<T> IdMap<T> {
    /// A cursor over the stored values, by rising slot index, that hands
    /// them out for change.
    pub fn iter_mut(&mut self) -> (iter: IdMapIterMut<'_, T>)
        requires
            old(self).wf(),
        ensures
            iter.wf(),
            iter.arena() == old(self)@,
            iter.position() == 0,
    {
        IdMapIterMut { map: self, index: 0 }
    }
}

} // verus!
