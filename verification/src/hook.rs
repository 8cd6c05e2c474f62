//! Hooks on events. A hook is called with every event that is dispatched
//! and tells by its answer whether it is done and can be released.

use crate::id_map::{ArenaView, Id, IdMap};
use vstd::prelude::*;

verus! {

/// A function that is called with every event. It answers `true` to be
/// released.
pub struct Hook<F>(pub F);

/// The hooks on the events of one kind.
pub struct HookPool<F> {
    hooks: IdMap<Hook<F>>,
}

impl<F> View for HookPool<F> {
    type V = ArenaView<Hook<F>>;

    closed spec fn view(&self) -> ArenaView<Hook<F>> {
        self.hooks@
    }
}

impl<F> HookPool<F> {
    /// Consistency of the pool (see [`ArenaView::wf`]).
    pub open spec fn wf(&self) -> bool {
        self@.wf()
    }

    /// A pool without hooks.
    pub fn new() -> (pool: Self)
        ensures
            pool.wf(),
            pool@ == ArenaView::<Hook<F>>::empty(),
    {
        Self { hooks: IdMap::new() }
    }

    /// Number of hooks.
    pub fn count_hooks(&self) -> (count: usize)
        requires
            self.wf(),
        ensures
            count == self@.len(),
    {
        self.hooks.len()
    }

    /// Adds a hook.
    pub fn hook(&mut self, callback: F) -> (id: Id)
        requires
            old(self).wf(),
            old(self)@.generation < usize::MAX,
        ensures
            final(self).wf(),
            final(self)@ == old(self)@.insert(Hook(callback)),
            id == old(self)@.insert_id(),
    {
        self.hooks.push(Hook(callback))
    }

    /// Removes a hook; it is not called again.
    pub fn release(&mut self, id: Id)
        requires
            old(self).wf(),
        ensures
            final(self).wf(),
            final(self)@ == old(self)@.remove(id),
    {
        self.hooks.delete(id);
    }

    /// Calls every hook with the event, by rising slot, and releases the
    /// hooks that ask for it.
    pub fn dispatch<Event>(&mut self, event: &Event) where F: Fn(&Event) -> bool
        requires
            old(self).wf(),
            forall|id: Id| #[trigger]
                old(self)@.contains(id) ==> call_requires(old(self)@.get(id).0, (event,)),
        ensures
            final(self).wf(),
            forall|id: Id| #[trigger]
                final(self)@.contains(id) ==> old(self)@.contains(id) && final(self)@.get(id)
                    == old(self)@.get(id) && call_ensures(old(self)@.get(id).0, (event,), false),
            forall|id: Id|
                #![trigger old(self)@.contains(id)]
                old(self)@.contains(id) && !final(self)@.contains(id) ==> call_ensures(
                    old(self)@.get(id).0,
                    (event,),
                    true,
                ),
    {
        let ids = self.hooks.ids();
        let ghost before = self@;
        let ghost entries = before.entries();
        let mut released: Vec<bool> = Vec::new();
        proof {
            before.lemma_entries();
        }
        let mut i: usize = 0;
        while i < ids.len()
            invariant
                i <= ids.len(),
                released@.len() == i,
                ids@ == crate::id_map::entry_ids(entries),
                entries == before.entries(),
                self@ == before,
                before.wf(),
                forall|id: Id| #[trigger]
                    before.contains(id) ==> call_requires(before.get(id).0, (event,)),
                forall|k: int|
                    0 <= k < entries.len() ==> before.contains((#[trigger] entries[k]).0)
                        && before.get(entries[k].0) == entries[k].1,
                forall|k: int|
                    0 <= k < i ==> call_ensures(
                        (#[trigger] entries[k]).1.0,
                        (event,),
                        released@[k],
                    ),
            decreases ids.len() - i,
        {
            let id = ids[i];
            proof {
                assert(id == entries[i as int].0);
                assert(before.contains(id));
            }
            let done = match self.hooks.get_ref(id) {
                Some(hook) => (hook.0)(event),
                None => false,
            };
            released.push(done);
            i += 1;
        }
        let mut r: usize = 0;
        while r < ids.len()
            invariant
                r <= ids.len(),
                released@.len() == ids@.len(),
                ids@ == crate::id_map::entry_ids(entries),
                entries == before.entries(),
                self.wf(),
                before.wf(),
                forall|k: int|
                    0 <= k < entries.len() ==> before.contains((#[trigger] entries[k]).0)
                        && before.get(entries[k].0) == entries[k].1,
                forall|j: int, k: int|
                    0 <= j < k < entries.len() ==> (#[trigger] entries[j]).0.index < (
                    #[trigger] entries[k]).0.index,
                forall|k: int|
                    0 <= k < entries.len() ==> self@.contains((#[trigger] entries[k]).0) == !(k < r
                        && released@[k]),
                forall|id: Id| #[trigger]
                    self@.contains(id) ==> before.contains(id) && self@.get(id) == before.get(id),
            decreases ids.len() - r,
        {
            if released[r] {
                let id = ids[r];
                let ghost now = self@;
                proof {
                    assert(id == entries[r as int].0);
                    now.lemma_remove_frame(id);
                }
                self.hooks.delete(id);
                proof {
                    assert forall|k: int| 0 <= k < entries.len() implies self@.contains(
                        (#[trigger] entries[k]).0,
                    ) == !(k < r + 1 && released@[k]) by {
                        if k < r {
                            assert(entries[k].0.index < entries[r as int].0.index);
                        } else if k > r {
                            assert(entries[r as int].0.index < entries[k].0.index);
                        }
                    }
                }
            }
            r += 1;
        }
        proof {
            assert forall|id: Id| #[trigger] self@.contains(id) implies before.contains(id)
                && self@.get(id) == before.get(id) && call_ensures(
                before.get(id).0,
                (event,),
                false,
            ) by {
                assert(before.contains(id));
                let k = choose|k: int| 0 <= k < entries.len() && entries[k] == (id, before.get(id));
                assert(entries[k].0 == id);
            }
            assert forall|id: Id|
                #![trigger before.contains(id)]
                before.contains(id) && !self@.contains(id) implies call_ensures(
                before.get(id).0,
                (event,),
                true,
            ) by {
                let k = choose|k: int| 0 <= k < entries.len() && entries[k] == (id, before.get(id));
                assert(entries[k].0 == id);
            }
        }
    }
}

} // verus!
