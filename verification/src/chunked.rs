//! A collection in two parts: the newest items ("dynamic") and the older
//! ones ("ancient"). Every item starts in the dynamic part; rebalancing
//! moves the oldest dynamic items to the ancient part until the dynamic
//! part is back under its ceiling.

use crate::id_map::{ArenaView, Id, IdMap};
use vstd::multiset::Multiset;
use vstd::prelude::*;

verus! {

/// What the collection needs of its items: a date by which they age.
///
/// An implementation gives the date twice: `date_spec` says what the date
/// of an item is, and `date` computes it.
pub trait Item {
    /// The date of the item.
    spec fn date_spec(&self) -> i64;

    /// Computes the date of the item.
    fn date(&self) -> (date: i64)
        ensures
            date == self.date_spec(),
    ;
}

/// Handle to an item, tagged with the part that holds it.
#[allow(non_camel_case_types)]
#[derive(Debug, Clone, Copy, PartialEq, Eq, Structural, Hash)]
pub enum Uid {
    DYNAMIC(Id),
    ANCIENT(Id),
}

/// Position of the oldest entry: the first one of the smallest date.
pub open spec fn oldest<T: Item>(entries: Seq<(Id, T)>) -> int
    decreases entries.len(),
{
    if entries.len() <= 1 {
        0
    } else {
        let best = oldest(entries.drop_last());
        if entries.last().1.date_spec() < entries[best].1.date_spec() {
            entries.len() - 1
        } else {
            best
        }
    }
}

/// The oldest entry is an entry, and no entry is older.
pub proof fn lemma_oldest<T: Item>(entries: Seq<(Id, T)>)
    requires
        entries.len() > 0,
    ensures
        0 <= oldest(entries) < entries.len(),
        forall|k: int|
            0 <= k < entries.len() ==> entries[oldest(entries)].1.date_spec() <= (
            #[trigger] entries[k]).1.date_spec(),
    decreases entries.len(),
{
    if entries.len() > 1 {
        let front = entries.drop_last();
        lemma_oldest(front);
        assert forall|k: int| 0 <= k < entries.len() implies entries[oldest(
            entries,
        )].1.date_spec() <= (#[trigger] entries[k]).1.date_spec() by {
            if k < front.len() {
                assert(front[k] == entries[k]);
            }
        }
    }
}

/// One part of the collection, with a mark that tells whether it has
/// changed since it was last written.
#[derive(Debug)]
pub struct Chunk<T> {
    items: IdMap<T>,
    modifyed: bool,
}

impl<T> View for Chunk<T> {
    type V = ArenaView<T>;

    closed spec fn view(&self) -> ArenaView<T> {
        self.items@
    }
}

impl<T> Chunk<T> {
    /// Consistency of the part (see [`ArenaView::wf`]).
    pub open spec fn wf(&self) -> bool {
        self@.wf()
    }

    /// Whether the part has changed since it was last written.
    pub closed spec fn modified(&self) -> bool {
        self.modifyed
    }

    /// A part that holds the given items. `modifyed` tells whether they
    /// differ from what has been written.
    pub fn from_items(items: IdMap<T>, modifyed: bool) -> (chunk: Self)
        requires
            items.wf(),
        ensures
            chunk@ == items@,
            chunk.modified() == modifyed,
            chunk.wf(),
    {
        Self { items, modifyed }
    }

    /// An empty part that has yet to be written.
    pub fn create() -> (chunk: Self)
        ensures
            chunk@ == ArenaView::<T>::empty(),
            chunk.modified(),
            chunk.wf(),
    {
        Self { items: IdMap::new(), modifyed: true }
    }

    /// The items, as they are to be written.
    pub fn items(&self) -> (items: &IdMap<T>)
        ensures
            items@ == self@,
    {
        &self.items
    }

    /// Whether the part has to be written.
    pub fn needs_store(&self) -> (needed: bool)
        ensures
            needed == self.modified(),
    {
        self.modifyed
    }

    /// Records that the part has been written as it is.
    pub fn mark_stored(&mut self)
        ensures
            final(self)@ == old(self)@,
            !final(self).modified(),
    {
        self.modifyed = false;
    }

    /// The item named by `id`, if the handle is valid.
    pub fn ref_data(&self, id: Id) -> (value: Option<&T>)
        ensures
            match value {
                Some(v) => self@.contains(id) && *v == self@.get(id),
                None => !self@.contains(id),
            },
    {
        self.items.get_ref(id)
    }

    /// Number of items of the part.
    pub fn len(&self) -> (n: usize)
        requires
            self.wf(),
        ensures
            n == self@.len(),
    {
        self.items.len()
    }

    /// Stores an item and marks the part as changed.
    pub fn push(&mut self, data: T) -> (id: Id)
        requires
            old(self).wf(),
            old(self)@.generation < usize::MAX,
        ensures
            final(self).wf(),
            final(self).modified(),
            final(self)@ == old(self)@.insert(data),
            id == old(self)@.insert_id(),
    {
        self.modifyed = true;
        self.items.push(data)
    }

    /// Replaces the item named by `id`, if the handle is valid, and marks
    /// the part as changed.
    pub fn update(&mut self, id: Id, data: T)
        requires
            old(self).wf(),
        ensures
            final(self).wf(),
            final(self).modified(),
            final(self)@ == old(self)@.update(id, data),
    {
        self.modifyed = true;
        self.items.update(id, data)
    }

    /// Removes the item named by `id`, if the handle is valid, and marks
    /// the part as changed.
    pub fn delete(&mut self, id: Id)
        requires
            old(self).wf(),
        ensures
            final(self).wf(),
            final(self).modified(),
            final(self)@ == old(self)@.remove(id),
    {
        self.modifyed = true;
        self.items.delete(id)
    }
}

impl<T: Item> Chunk<T> {
    /// Removes the oldest item and hands it out: the first one, by slot,
    /// of the smallest date. `None` where the part is empty.
    pub fn pop_oldest(&mut self) -> (popped: Option<T>)
        requires
            old(self).wf(),
        ensures
            final(self).wf(),
            match popped {
                Some(item) => {
                    let entry = old(self)@.entries()[oldest(old(self)@.entries())];
                    &&& old(self)@.len() > 0
                    &&& item == entry.1
                    &&& old(self)@.contains(entry.0)
                    &&& final(self)@ == old(self)@.remove(entry.0)
                    &&& final(self).modified()
                },
                None => {
                    &&& old(self)@.len() == 0
                    &&& final(self)@ == old(self)@
                    &&& final(self).modified() == old(self).modified()
                },
            },
    {
        let ghost entries = self@.entries();
        let mut oldest_id: Option<Id> = None;
        let mut oldest_date: i64 = 0;
        let mut iter = self.items.iter();
        let ghost mut seen: int = 0;
        proof {
            assert(entries.subrange(0, entries.len() as int) =~= entries);
        }
        loop
            invariant_except_break
                iter.wf(),
                iter.arena() == self@,
                entries == self@.entries(),
                0 <= seen <= entries.len(),
                iter.remaining() == entries.subrange(seen, entries.len() as int),
                seen == 0 ==> oldest_id.is_none(),
                seen > 0 ==> oldest_id == Some(entries[oldest(entries.subrange(0, seen))].0)
                    && oldest_date == entries[oldest(entries.subrange(0, seen))].1.date_spec(),
            ensures
                entries.len() == 0 ==> oldest_id.is_none(),
                entries.len() > 0 ==> oldest_id == Some(entries[oldest(entries)].0),
            decreases entries.len() - seen,
        {
            match iter.next() {
                Some(item) => {
                    proof {
                        let longer = entries.subrange(0, seen + 1);
                        assert(longer.drop_last() =~= entries.subrange(0, seen));
                        assert(longer.last() == entries[seen]);
                        assert(entries.subrange(seen, entries.len() as int)[0] == entries[seen]);
                        assert(entries.subrange(seen, entries.len() as int).drop_first()
                            =~= entries.subrange(seen + 1, entries.len() as int));
                        if seen > 0 {
                            lemma_oldest(entries.subrange(0, seen));
                        }
                    }
                    let item_date = item.data.date();
                    if oldest_id.is_none() || item_date < oldest_date {
                        oldest_date = item_date;
                        oldest_id = Some(item.id);
                    }
                    proof {
                        seen = seen + 1;
                    }
                },
                None => {
                    proof {
                        assert(entries.subrange(0, entries.len() as int) =~= entries);
                    }
                    break ;
                },
            }
        }
        match oldest_id {
            Some(id) => {
                proof {
                    lemma_oldest(entries);
                    self@.lemma_entries();
                }
                self.modifyed = true;
                self.items.take(id)
            },
            None => None,
        }
    }
}

/// Which parts have to be written.
#[derive(Debug, Clone, Copy, PartialEq, Eq, Structural)]
pub struct SavePlan {
    pub dynamic: bool,
    pub ancient: bool,
}

/// What has to be written after a change through a handle: the part that
/// the handle's tag names, and what had to be written before.
pub open spec fn touched(pending: SavePlan, id: Uid) -> SavePlan {
    match id {
        Uid::DYNAMIC(_) => SavePlan { dynamic: true, ancient: pending.ancient },
        Uid::ANCIENT(_) => SavePlan { dynamic: pending.dynamic, ancient: true },
    }
}

/// The collection in two parts, with the ceiling of the dynamic part.
#[derive(Debug)]
pub struct ChunkedDatabase<T> {
    dynamic: Chunk<T>,
    ancient: Chunk<T>,
    max_dynamic_len: usize,
}

/// The values that a rebalancing has moved: what the ancient part holds
/// more than it held.
pub open spec fn moved_values<T>(before: ArenaView<T>, after: ArenaView<T>) -> Multiset<T> {
    after.values().sub(before.values())
}

/// What rebalancing under a ceiling makes of a dynamic and an ancient
/// part: the dynamic part is cut to the ceiling and has lost exactly the
/// items that the ancient part has gained; none of the moved items is
/// younger than an item that stayed; no item has moved the other way, and
/// every handle that is still valid names the item it named. Under the
/// ceiling nothing changes.
pub open spec fn rebalanced<T: Item>(
    dynamic_before: ArenaView<T>,
    ancient_before: ArenaView<T>,
    ceiling: usize,
    dynamic_after: ArenaView<T>,
    ancient_after: ArenaView<T>,
) -> bool {
    &&& dynamic_after.len() == (if dynamic_before.len() > ceiling {
        ceiling as nat
    } else {
        dynamic_before.len()
    })
    &&& ancient_after.len() == ancient_before.len() + (dynamic_before.len() - dynamic_after.len())
    &&& ancient_after.values() == ancient_before.values().add(
        moved_values(ancient_before, ancient_after),
    )
    &&& dynamic_before.values() == dynamic_after.values().add(
        moved_values(ancient_before, ancient_after),
    )
    &&& forall|gone: T, kept: T|
        moved_values(ancient_before, ancient_after).count(gone) > 0 && dynamic_after.values().count(
            kept,
        ) > 0 ==> gone.date_spec() <= kept.date_spec()
    &&& dynamic_after.map().submap_of(dynamic_before.map())
    &&& ancient_before.map().submap_of(ancient_after.map())
    &&& dynamic_before.len() <= ceiling ==> dynamic_after == dynamic_before && ancient_after
        == ancient_before
}

/// Rebalancing more items than the ceiling allows, with nothing in the
/// ancient part before, leaves as many items in the dynamic part as the
/// ceiling, and the others in the ancient part: together they are the items
/// that were there, and no ancient item is younger than a dynamic one.
pub proof fn law_rebalance_splits_by_age<T: Item>(
    before: ArenaView<T>,
    ceiling: usize,
    dynamic: ArenaView<T>,
    ancient: ArenaView<T>,
)
    requires
        before.len() > ceiling,
        rebalanced(before, ArenaView::<T>::empty(), ceiling, dynamic, ancient),
    ensures
        dynamic.len() == ceiling,
        ancient.len() == before.len() - ceiling,
        before.values() == dynamic.values().add(ancient.values()),
        forall|gone: T, kept: T|
            ancient.values().count(gone) > 0 && dynamic.values().count(kept) > 0
                ==> gone.date_spec() <= kept.date_spec(),
{
    ArenaView::<T>::lemma_empty();
    assert(moved_values(ArenaView::<T>::empty(), ancient) =~= ancient.values());
}

/// The handles and values of one part under the tag of that part.
pub open spec fn tagged<T>(entries: Seq<(Id, T)>, ancient: bool) -> Seq<(Uid, T)> {
    entries.map_values(
        |e: (Id, T)|
            (if ancient {
                Uid::ANCIENT(e.0)
            } else {
                Uid::DYNAMIC(e.0)
            }, e.1),
    )
}

/// What a list of borrowed items holds.
pub open spec fn listed<T>(list: Seq<(Uid, &T)>) -> Seq<(Uid, T)> {
    list.map_values(|e: (Uid, &T)| (e.0, *e.1))
}

impl<T> ChunkedDatabase<T> {
    /// The dynamic part.
    pub closed spec fn dynamic(&self) -> ArenaView<T> {
        self.dynamic@
    }

    /// The ancient part.
    pub closed spec fn ancient(&self) -> ArenaView<T> {
        self.ancient@
    }

    /// The number of items that the dynamic part may hold after a
    /// rebalancing.
    pub closed spec fn ceiling(&self) -> usize {
        self.max_dynamic_len
    }

    /// Which parts have changed since they were last written.
    pub closed spec fn pending(&self) -> SavePlan {
        SavePlan { dynamic: self.dynamic.modified(), ancient: self.ancient.modified() }
    }

    /// Consistency of both parts.
    pub open spec fn wf(&self) -> bool {
        self.dynamic().wf() && self.ancient().wf()
    }

    /// The item named by a handle, in the part that the handle's tag names.
    pub open spec fn get(&self, id: Uid) -> Option<T> {
        match id {
            Uid::DYNAMIC(id) => if self.dynamic().contains(id) {
                Some(self.dynamic().get(id))
            } else {
                None
            },
            Uid::ANCIENT(id) => if self.ancient().contains(id) {
                Some(self.ancient().get(id))
            } else {
                None
            },
        }
    }

    /// The ancient part can take what a rebalancing would move to it.
    pub open spec fn can_rebalance(&self) -> bool {
        self.dynamic().len() > self.ceiling() ==> self.ancient().generation + (
        self.dynamic().len() - self.ceiling()) <= usize::MAX
    }

    /// Whether the collection can take one more item.
    pub fn can_push(&self) -> (room: bool)
        ensures
            room == (self.dynamic().generation < usize::MAX),
    {
        self.dynamic.items.last_generation() < usize::MAX
    }

    /// Whether the collection can be rebalanced (see
    /// [`ChunkedDatabase::can_rebalance`]).
    pub fn has_room_to_rebalance(&self) -> (room: bool)
        requires
            self.wf(),
        ensures
            room == self.can_rebalance(),
    {
        let held = self.dynamic.len();
        held <= self.max_dynamic_len || held - self.max_dynamic_len <= usize::MAX
            - self.ancient.items.last_generation()
    }

    /// Number of items in both parts, if it can be told.
    pub fn checked_len(&self) -> (n: Option<usize>)
        requires
            self.wf(),
        ensures
            match n {
                Some(n) => n == self.dynamic().len() + self.ancient().len(),
                None => self.dynamic().len() + self.ancient().len() > usize::MAX,
            },
    {
        let dynamic = self.dynamic.len();
        let ancient = self.ancient.len();
        if dynamic <= usize::MAX - ancient {
            Some(dynamic + ancient)
        } else {
            None
        }
    }

    /// An empty collection, none of whose parts has been written.
    pub fn create(max_dynamic_len: usize) -> (db: Self)
        ensures
            db.wf(),
            db.dynamic() == ArenaView::<T>::empty(),
            db.ancient() == ArenaView::<T>::empty(),
            db.ceiling() == max_dynamic_len,
            db.pending() == (SavePlan { dynamic: true, ancient: true }),
    {
        Self { dynamic: Chunk::create(), ancient: Chunk::create(), max_dynamic_len }
    }

    /// The collection of two parts that were read from their stores.
    pub fn from_chunks(dynamic: Chunk<T>, ancient: Chunk<T>, max_dynamic_len: usize) -> (db: Self)
        requires
            dynamic.wf(),
            ancient.wf(),
        ensures
            db.wf(),
            db.dynamic() == dynamic@,
            db.ancient() == ancient@,
            db.ceiling() == max_dynamic_len,
            db.pending() == (SavePlan {
                dynamic: dynamic.modified(),
                ancient: ancient.modified(),
            }),
    {
        Self { dynamic, ancient, max_dynamic_len }
    }

    /// The dynamic part, as it is to be written.
    pub fn dynamic_chunk(&self) -> (chunk: &Chunk<T>)
        ensures
            chunk@ == self.dynamic(),
            chunk.modified() == self.pending().dynamic,
    {
        &self.dynamic
    }

    /// The ancient part, as it is to be written.
    pub fn ancient_chunk(&self) -> (chunk: &Chunk<T>)
        ensures
            chunk@ == self.ancient(),
            chunk.modified() == self.pending().ancient,
    {
        &self.ancient
    }

    /// Removes the item named by `id`, and leaves the items where the part
    /// that the tag names does not hold the handle. Either way that part
    /// has to be written afterwards.
    pub fn delete(&mut self, id: Uid)
        requires
            old(self).wf(),
        ensures
            final(self).wf(),
            final(self).ceiling() == old(self).ceiling(),
            match id {
                Uid::DYNAMIC(id) => final(self).dynamic() == old(self).dynamic().remove(id)
                    && final(self).ancient() == old(self).ancient(),
                Uid::ANCIENT(id) => final(self).ancient() == old(self).ancient().remove(id)
                    && final(self).dynamic() == old(self).dynamic(),
            },
            final(self).get(id).is_none(),
            final(self).pending() == touched(old(self).pending(), id),
    {
        match id {
            Uid::DYNAMIC(id) => {
                proof {
                    if self.dynamic().contains(id) {
                        self.dynamic().lemma_remove(id);
                    }
                }
                self.dynamic.delete(id)
            },
            Uid::ANCIENT(id) => {
                proof {
                    if self.ancient().contains(id) {
                        self.ancient().lemma_remove(id);
                    }
                }
                self.ancient.delete(id)
            },
        }
    }

    /// Stores an item. Every item starts in the dynamic part, which has to
    /// be written afterwards.
    pub fn push(&mut self, item: T) -> (id: Uid)
        requires
            old(self).wf(),
            old(self).dynamic().generation < usize::MAX,
        ensures
            final(self).wf(),
            final(self).ceiling() == old(self).ceiling(),
            id == Uid::DYNAMIC(old(self).dynamic().insert_id()),
            final(self).dynamic() == old(self).dynamic().insert(item),
            final(self).ancient() == old(self).ancient(),
            old(self).get(id).is_none(),
            final(self).get(id) == Some(item),
            final(self).dynamic().len() == old(self).dynamic().len() + 1,
            final(self).pending() == touched(old(self).pending(), id),
    {
        proof {
            self.dynamic().lemma_insert(item);
            assert(self.dynamic().insert(item).map().dom().contains(self.dynamic().insert_id()));
        }
        Uid::DYNAMIC(self.dynamic.push(item))
    }

    /// Replaces the item named by `id`, and leaves the items where the
    /// part that the tag names does not hold the handle. Either way that
    /// part has to be written afterwards.
    pub fn update(&mut self, id: Uid, item: T)
        requires
            old(self).wf(),
        ensures
            final(self).wf(),
            final(self).ceiling() == old(self).ceiling(),
            match id {
                Uid::DYNAMIC(id) => final(self).dynamic() == old(self).dynamic().update(id, item)
                    && final(self).ancient() == old(self).ancient(),
                Uid::ANCIENT(id) => final(self).ancient() == old(self).ancient().update(id, item)
                    && final(self).dynamic() == old(self).dynamic(),
            },
            final(self).get(id) == (if old(self).get(id).is_some() {
                Some(item)
            } else {
                None
            }),
            final(self).pending() == touched(old(self).pending(), id),
    {
        match id {
            Uid::DYNAMIC(id) => self.dynamic.update(id, item),
            Uid::ANCIENT(id) => self.ancient.update(id, item),
        }
    }

    /// The item named by `id`, if the part that the tag names holds the
    /// handle.
    pub fn read(&self, id: Uid) -> (item: Option<&T>)
        ensures
            match item {
                Some(v) => self.get(id) == Some(*v),
                None => self.get(id).is_none(),
            },
    {
        match id {
            Uid::DYNAMIC(id) => self.dynamic.ref_data(id),
            Uid::ANCIENT(id) => self.ancient.ref_data(id),
        }
    }

    /// Number of items in both parts.
    pub fn len(&self) -> (n: usize)
        requires
            self.wf(),
            self.dynamic().len() + self.ancient().len() <= usize::MAX,
        ensures
            n == self.dynamic().len() + self.ancient().len(),
    {
        self.dynamic.len() + self.ancient.len()
    }

    /// The items of the dynamic part with their handles, by rising slot.
    pub fn iter(&self) -> (list: Vec<(Uid, &T)>)
        requires
            self.wf(),
        ensures
            listed(list@) == tagged(self.dynamic().entries(), false),
    {
        let mut list: Vec<(Uid, &T)> = Vec::new();
        Self::list_chunk(&self.dynamic, false, &mut list);
        proof {
            let t = tagged(self.dynamic().entries(), false);
            assert(Seq::<(Uid, T)>::empty() + t =~= t);
            assert(listed(Seq::<(Uid, &T)>::empty()) =~= Seq::<(Uid, T)>::empty());
        }
        list
    }

    /// The items of the ancient part with their handles, by rising slot.
    pub fn iter_ancient(&self) -> (list: Vec<(Uid, &T)>)
        requires
            self.wf(),
        ensures
            listed(list@) == tagged(self.ancient().entries(), true),
    {
        let mut list: Vec<(Uid, &T)> = Vec::new();
        Self::list_chunk(&self.ancient, true, &mut list);
        proof {
            let t = tagged(self.ancient().entries(), true);
            assert(Seq::<(Uid, T)>::empty() + t =~= t);
            assert(listed(Seq::<(Uid, &T)>::empty()) =~= Seq::<(Uid, T)>::empty());
        }
        list
    }

    /// The items of both parts with their handles, the dynamic part first.
    pub fn iter_all(&self) -> (list: Vec<(Uid, &T)>)
        requires
            self.wf(),
        ensures
            listed(list@) == tagged(self.dynamic().entries(), false) + tagged(
                self.ancient().entries(),
                true,
            ),
    {
        let mut list = self.iter();
        Self::list_chunk(&self.ancient, true, &mut list);
        list
    }

    fn list_chunk<'a>(chunk: &'a Chunk<T>, ancient: bool, list: &mut Vec<(Uid, &'a T)>)
        requires
            chunk.wf(),
        ensures
            listed(final(list)@) == listed(old(list)@) + tagged(chunk@.entries(), ancient),
    {
        let ghost entries = chunk@.entries();
        let ghost start = listed(list@);
        let ghost mut seen: int = 0;
        let mut iter = chunk.items.iter();
        proof {
            assert(entries.subrange(0, entries.len() as int) =~= entries);
            assert(tagged(entries.subrange(0, 0), ancient) =~= Seq::empty());
            assert(start + Seq::<(Uid, T)>::empty() =~= start);
        }
        loop
            invariant_except_break
                iter.wf(),
                0 <= seen <= entries.len(),
                iter.remaining() == entries.subrange(seen, entries.len() as int),
                listed(list@) == start + tagged(entries.subrange(0, seen), ancient),
            ensures
                listed(list@) == start + tagged(entries, ancient),
            decreases entries.len() - seen,
        {
            match iter.next() {
                Some(item) => {
                    let ghost was = list@;
                    let uid = if ancient {
                        Uid::ANCIENT(item.id)
                    } else {
                        Uid::DYNAMIC(item.id)
                    };
                    list.push((uid, item.data));
                    proof {
                        assert(entries.subrange(seen, entries.len() as int)[0] == entries[seen]);
                        assert(entries.subrange(seen, entries.len() as int).drop_first()
                            =~= entries.subrange(seen + 1, entries.len() as int));
                        assert(listed(list@) =~= listed(was).push((uid, *item.data)));
                        assert(tagged(entries.subrange(0, seen + 1), ancient) =~= tagged(
                            entries.subrange(0, seen),
                            ancient,
                        ).push((uid, *item.data)));
                        seen = seen + 1;
                    }
                },
                None => {
                    proof {
                        assert(entries.subrange(0, entries.len() as int) =~= entries);
                    }
                    break ;
                },
            }
        }
    }

    /// Records that the parts named by `plan` have been written as they
    /// are.
    pub fn mark_stored(&mut self, plan: SavePlan)
        ensures
            final(self).dynamic() == old(self).dynamic(),
            final(self).ancient() == old(self).ancient(),
            final(self).ceiling() == old(self).ceiling(),
            final(self).pending() == (SavePlan {
                dynamic: old(self).pending().dynamic && !plan.dynamic,
                ancient: old(self).pending().ancient && !plan.ancient,
            }),
    {
        if plan.dynamic {
            self.dynamic.mark_stored();
        }
        if plan.ancient {
            self.ancient.mark_stored();
        }
    }
}

impl<T: Item> ChunkedDatabase<T> {
    /// Rebalances: while the dynamic part holds more items than its
    /// ceiling, its oldest item moves to the ancient part.
    ///
    /// Afterwards the dynamic part is at or under its ceiling and has lost
    /// exactly the items that the ancient part has gained; none of the
    /// moved items is younger than an item that stayed; no item has moved
    /// the other way, and every handle that is still valid names the item
    /// it named.
    pub fn move_old_items(&mut self)
        requires
            old(self).wf(),
            old(self).can_rebalance(),
        ensures
            final(self).wf(),
            final(self).ceiling() == old(self).ceiling(),
            final(self).dynamic().len() == (if old(self).dynamic().len() > old(self).ceiling() {
                old(self).ceiling() as nat
            } else {
                old(self).dynamic().len()
            }),
            final(self).ancient().len() == old(self).ancient().len() + (old(self).dynamic().len()
                - final(self).dynamic().len()),
            final(self).ancient().values() == old(self).ancient().values().add(
                moved_values(old(self).ancient(), final(self).ancient()),
            ),
            old(self).dynamic().values() == final(self).dynamic().values().add(
                moved_values(old(self).ancient(), final(self).ancient()),
            ),
            forall|gone: T, kept: T|
                moved_values(old(self).ancient(), final(self).ancient()).count(gone) > 0 && final(self).dynamic().values().count(kept) > 0 ==> gone.date_spec() <= kept.date_spec(),
            final(self).dynamic().map().submap_of(old(self).dynamic().map()),
            old(self).ancient().map().submap_of(final(self).ancient().map()),
            final(self).dynamic().len() + final(self).ancient().len() == old(self).dynamic().len()
                + old(self).ancient().len(),
            rebalanced(
                old(self).dynamic(),
                old(self).ancient(),
                old(self).ceiling(),
                final(self).dynamic(),
                final(self).ancient(),
            ),
            old(self).dynamic().len() > old(self).ceiling() ==> final(self).pending() == (SavePlan {
                dynamic: true,
                ancient: true,
            }),
            old(self).dynamic().len() <= old(self).ceiling() ==> final(self).pending() == old(self).pending() && final(self).dynamic() == old(self).dynamic() && final(self).ancient()
                == old(self).ancient(),
    {
        let ghost dynamic0 = self.dynamic();
        let ghost ancient0 = self.ancient();
        let ghost mut moved: Multiset<T> = Multiset::empty();
        proof {
            dynamic0.lemma_len();
            ancient0.lemma_len();
            assert(ancient0.values().add(moved) =~= ancient0.values());
            assert(dynamic0.values().add(moved) =~= dynamic0.values());
        }
        while self.dynamic.len() > self.max_dynamic_len
            invariant
                self.wf(),
                self.ceiling() == old(self).ceiling(),
                self.ceiling() == self.max_dynamic_len,
                self.dynamic() == self.dynamic@,
                self.ancient() == self.ancient@,
                dynamic0 == old(self).dynamic(),
                ancient0 == old(self).ancient(),
                self.dynamic().len() <= dynamic0.len(),
                dynamic0.len() > self.ceiling() ==> self.dynamic().len() >= self.ceiling(),
                dynamic0.len() <= self.ceiling() ==> moved.len() == 0,
                moved.len() == 0 ==> self.pending() == old(self).pending() && self.dynamic()
                    == dynamic0 && self.ancient() == ancient0,
                moved.len() > 0 ==> self.pending() == (SavePlan { dynamic: true, ancient: true }),
                moved.len() == dynamic0.len() - self.dynamic().len(),
                self.ancient().len() == ancient0.len() + moved.len(),
                self.ancient().generation + (self.dynamic().len() - self.ceiling()) <= usize::MAX
                    || self.dynamic().len() <= self.ceiling(),
                self.ancient().values() == ancient0.values().add(moved),
                dynamic0.values() == self.dynamic().values().add(moved),
                forall|gone: T, kept: T|
                    moved.count(gone) > 0 && self.dynamic().values().count(kept) > 0
                        ==> gone.date_spec() <= kept.date_spec(),
                self.dynamic().map().submap_of(dynamic0.map()),
                ancient0.map().submap_of(self.ancient().map()),
            decreases self.dynamic().len(),
        {
            let ghost dynamic1 = self.dynamic();
            let ghost ancient1 = self.ancient();
            let ghost entries = dynamic1.entries();
            let popped = self.dynamic.pop_oldest();
            let item = popped.unwrap();
            proof {
                let entry = entries[oldest(entries)];
                lemma_oldest(entries);
                dynamic1.lemma_entries();
                dynamic1.lemma_remove(entry.0);
                ancient1.lemma_insert(item);
                assert forall|gone: T, kept: T|
                    moved.insert(item).count(gone) > 0 && self.dynamic().values().count(kept)
                        > 0 implies gone.date_spec() <= kept.date_spec() by {
                    assert(dynamic1.values().count(kept) > 0);
                    if gone == item && moved.count(gone) == 0 {
                        dynamic1.lemma_values(kept);
                        let id = choose|id: Id| #[trigger]
                            dynamic1.contains(id) && dynamic1.get(id) == kept;
                        let k = choose|k: int| 0 <= k < entries.len() && entries[k] == (id, kept);
                        assert(entries[k].1 == kept);
                    }
                }
                assert(ancient0.values().add(moved).insert(item) =~= ancient0.values().add(
                    moved.insert(item),
                ));
                assert(dynamic1.values().remove(item).add(moved.insert(item)) =~= dynamic1.values().add(
                    moved,
                ));
                moved = moved.insert(item);
            }
            let ghost dynamic2 = self.dynamic();
            proof {
                let entry = entries[oldest(entries)];
                assert(dynamic2 == dynamic1.remove(entry.0));
                assert(dynamic2.map() == dynamic1.map().remove(entry.0));
                assert(dynamic2.len() == dynamic1.len() - 1);
                assert forall|id: Id| #[trigger] dynamic2.map().dom().contains(id)
                    implies dynamic0.map().dom().contains(id) && dynamic2.map()[id]
                    == dynamic0.map()[id] by {
                    assert(dynamic1.map().dom().contains(id));
                    assert(dynamic2.map()[id] == dynamic1.map()[id]);
                }
                assert(dynamic2.map().submap_of(dynamic0.map()));
            }
            self.ancient.push(item);
            proof {
                let ancient2 = self.ancient();
                let fresh = ancient1.insert_id();
                assert(ancient2 == ancient1.insert(item));
                assert(ancient2.map() == ancient1.map().insert(fresh, item));
                assert(!ancient1.map().dom().contains(fresh));
                assert(ancient2.len() == ancient1.len() + 1);
                assert forall|id: Id| #[trigger] ancient0.map().dom().contains(id)
                    implies ancient2.map().dom().contains(id) && ancient0.map()[id]
                    == ancient2.map()[id] by {
                    assert(ancient1.map().dom().contains(id));
                    assert(ancient0.map()[id] == ancient1.map()[id]);
                    assert(id != fresh);
                }
                assert(ancient0.map().submap_of(ancient2.map()));
                assert(self.dynamic() == dynamic2);
            }
        }
        proof {
            assert(moved_values(ancient0, self.ancient()) =~= moved);
        }
    }

    /// Rebalances (see [`rebalanced`]) and tells which parts have to be
    /// written: both where items have moved, else those that had changed
    /// before.
    pub fn save(&mut self) -> (plan: SavePlan)
        requires
            old(self).wf(),
            old(self).can_rebalance(),
        ensures
            final(self).wf(),
            final(self).ceiling() == old(self).ceiling(),
            rebalanced(
                old(self).dynamic(),
                old(self).ancient(),
                old(self).ceiling(),
                final(self).dynamic(),
                final(self).ancient(),
            ),
            plan == final(self).pending(),
            plan == (if old(self).dynamic().len() > old(self).ceiling() {
                SavePlan { dynamic: true, ancient: true }
            } else {
                old(self).pending()
            }),
    {
        self.move_old_items();
        SavePlan { dynamic: self.dynamic.needs_store(), ancient: self.ancient.needs_store() }
    }
}

} // verus!
