//! Subscribers that are told of every change.
//!
//! A synchronous registry runs its callbacks inline. The asynchronous one
//! keeps the books of computations that run elsewhere: which of them have
//! been scheduled, which have been asked to stop, and whose results may
//! still be delivered.

use crate::backup::{models, sort_desc, sort_found, Found, Ranked};
use crate::id_map::{ArenaView, Id, IdMap};
use std::sync::atomic::{AtomicBool, Ordering};
use std::sync::Arc;
use vstd::prelude::*;

verus! {

/// A function together with the context it is called on.
pub struct Callback<Context, F> {
    callback: F,
    context: Context,
}

impl<Context, F: Fn(&Context)> Callback<Context, F> {
    /// The context of the callback.
    pub closed spec fn context(&self) -> Context {
        self.context
    }

    /// The function of the callback.
    pub closed spec fn function(&self) -> F {
        self.callback
    }

    /// The function accepts the context.
    pub open spec fn callable(&self) -> bool {
        call_requires(self.function(), (&self.context(),))
    }

    /// The function has run on the context.
    pub open spec fn called(&self) -> bool {
        call_ensures(self.function(), (&self.context(),), ())
    }

    /// The callback of a function and its context.
    pub fn new(context: Context, callback: F) -> (made: Self)
        ensures
            made.context() == context,
            made.function() == callback,
    {
        Self { context, callback }
    }

    /// Runs the function on the context.
    pub fn call(&self)
        requires
            self.callable(),
        ensures
            self.called(),
    {
        (self.callback)(&self.context)
    }
}

/// The generation of a handle as a key that ranks the earlier
/// registration higher.
#[derive(Debug, Clone, Copy)]
pub struct Age(pub usize);

impl View for Age {
    type V = usize;

    open spec fn view(&self) -> usize {
        self.0
    }
}

impl Ranked for Age {
    open spec fn rank_of(model: usize) -> int {
        -(model as int)
    }

    fn ranks_below(&self, other: &Age) -> (below: bool) {
        self.0 > other.0
    }
}

/// Slots and generations of some entries, as entries of a listing.
pub open spec fn aged<T>(entries: Seq<(Id, T)>) -> Seq<(int, usize)> {
    entries.map_values(|e: (Id, T)| (e.0.index as int, e.0.identifier))
}

/// The handles that some places and generations make.
pub open spec fn handles(entries: Seq<(int, usize)>) -> Seq<Id> {
    entries.map_values(|e: (int, usize)| Id { index: e.0 as usize, identifier: e.1 })
}

/// The valid handles of an arena in the order in which they were handed
/// out.
pub open spec fn registration_order<T>(arena: ArenaView<T>) -> Seq<Id> {
    handles(sort_desc::<Age>(aged(arena.entries())))
}

/// The registration order lists the valid handles and no others.
pub proof fn lemma_registration_order<T>(arena: ArenaView<T>)
    requires
        arena.wf(),
    ensures
        forall|id: Id| #[trigger] registration_order(arena).contains(id) <==> arena.contains(id),
        registration_order(arena).len() == arena.len(),
        forall|i: int, j: int|
            0 <= i < j < registration_order(arena).len() ==> (#[trigger] registration_order(
                arena,
            )[i]).identifier <= (#[trigger] registration_order(arena)[j]).identifier,
{
    let entries = arena.entries();
    let listing = aged(entries);
    let sorted = sort_desc::<Age>(listing);
    let order = registration_order(arena);
    crate::backup::law_sort_desc::<Age>(listing);
    arena.lemma_entries();
    assert forall|id: Id| #[trigger] order.contains(id) <==> arena.contains(id) by {
        if order.contains(id) {
            let k = choose|k: int| 0 <= k < order.len() && order[k] == id;
            vstd::seq_lib::to_multiset_contains(sorted, sorted[k]);
            vstd::seq_lib::to_multiset_contains(listing, sorted[k]);
            assert(sorted.contains(sorted[k]));
            let w = choose|w: int| 0 <= w < listing.len() && listing[w] == sorted[k];
            assert(arena.contains(entries[w].0));
            assert(entries[w].0 == id);
        }
        if arena.contains(id) {
            let w = choose|w: int| 0 <= w < entries.len() && entries[w] == (id, arena.get(id));
            let e = (id.index as int, id.identifier);
            assert(listing[w] == e);
            vstd::seq_lib::to_multiset_contains(listing, e);
            vstd::seq_lib::to_multiset_contains(sorted, e);
            let k = choose|k: int| 0 <= k < sorted.len() && sorted[k] == e;
            assert(order[k] == id);
        }
    }
    assert forall|i: int, j: int| 0 <= i < j < order.len() implies (#[trigger] order[i]).identifier
        <= (#[trigger] order[j]).identifier by {
        assert(Age::rank_of(sorted[i].1) >= Age::rank_of(sorted[j].1));
    }
}

/// The valid handles of an arena in the order in which they were handed
/// out.
pub(crate) fn ids_by_registration<T>(map: &IdMap<T>) -> (order: Vec<Id>)
    requires
        map.wf(),
    ensures
        order@ == registration_order(map@),
{
    let ghost entries = map@.entries();
    let mut found: Vec<Found<Age>> = Vec::new();
    let mut iter = map.iter();
    let ghost mut seen: int = 0;
    proof {
        map@.lemma_entries();
        assert(entries.subrange(0, entries.len() as int) =~= entries);
        assert(models(found@) =~= aged(entries.subrange(0, 0)));
    }
    loop
        invariant_except_break
            iter.wf(),
            0 <= seen <= entries.len(),
            iter.remaining() == entries.subrange(seen, entries.len() as int),
            models(found@) == aged(entries.subrange(0, seen)),
        ensures
            models(found@) == aged(entries),
        decreases entries.len() - seen,
    {
        match iter.next() {
            Some(item) => {
                let ghost was = found@;
                found.push(Found { index: item.id.index, key: Age(item.id.identifier) });
                proof {
                    assert(entries.subrange(seen, entries.len() as int)[0] == entries[seen]);
                    assert(entries.subrange(seen, entries.len() as int).drop_first()
                        =~= entries.subrange(seen + 1, entries.len() as int));
                    assert(models(found@) =~= models(was).push(
                        (item.id.index as int, item.id.identifier),
                    ));
                    assert(aged(entries.subrange(0, seen + 1)) =~= aged(
                        entries.subrange(0, seen),
                    ).push((item.id.index as int, item.id.identifier)));
                    seen = seen + 1;
                }
            },
            None => {
                proof {
                    assert(entries.subrange(0, entries.len() as int) =~= entries);
                }
                break ;
            },
        }
    }
    let sorted = sort_found(found, Ghost(usize::MAX as int + 1));
    let mut order: Vec<Id> = Vec::new();
    let mut k: usize = 0;
    proof {
        assert(order@ =~= handles(models(sorted@).subrange(0, 0)));
    }
    while k < sorted.len()
        invariant
            k <= sorted.len(),
            order@ == handles(models(sorted@).subrange(0, k as int)),
        decreases sorted.len() - k,
    {
        let ghost was = order@;
        order.push(Id { index: sorted[k].index, identifier: sorted[k].key.0 });
        proof {
            let m = models(sorted@);
            assert(m[k as int] == sorted@[k as int].model());
            assert(handles(m.subrange(0, k + 1)) =~= handles(m.subrange(0, k as int)).push(
                Id { index: sorted@[k as int].index, identifier: sorted@[k as int].key.0 },
            ));
        }
        k += 1;
    }
    proof {
        assert(models(sorted@).subrange(0, k as int) =~= models(sorted@));
    }
    order
}

/// Subscribers whose callbacks run inline.
pub struct Observable<Context, F> {
    hooks: IdMap<Callback<Context, F>>,
}

impl<Context, F: Fn(&Context)> View for Observable<Context, F> {
    type V = ArenaView<Callback<Context, F>>;

    closed spec fn view(&self) -> ArenaView<Callback<Context, F>> {
        self.hooks@
    }
}

impl<Context, F: Fn(&Context)> Default for Observable<Context, F> {
    fn default() -> (made: Self)
        ensures
            made@ == ArenaView::<Callback<Context, F>>::empty(),
            made.wf(),
    {
        Self { hooks: IdMap::new() }
    }
}

impl<Context, F: Fn(&Context)> Observable<Context, F> {
    /// Consistency of the registry (see [`ArenaView::wf`]).
    pub open spec fn wf(&self) -> bool {
        self@.wf()
    }

    /// Whether one more callback can be registered.
    pub fn can_subscribe(&self) -> (room: bool)
        ensures
            room == (self@.generation < usize::MAX),
    {
        self.hooks.last_generation() < usize::MAX
    }

    /// Registers a callback and, if `trigger_now`, runs it once before
    /// returning.
    pub fn subscrive(&mut self, callback: Callback<Context, F>, trigger_now: bool) -> (id: Id)
        requires
            old(self).wf(),
            old(self)@.generation < usize::MAX,
            trigger_now ==> callback.callable(),
        ensures
            final(self).wf(),
            final(self)@ == old(self)@.insert(callback),
            id == old(self)@.insert_id(),
            !old(self)@.contains(id),
            final(self)@.contains(id),
            trigger_now ==> callback.called(),
    {
        if trigger_now {
            callback.call()
        }
        proof {
            self@.lemma_insert(callback);
            assert(self@.insert(callback).map().dom().contains(self@.insert_id()));
        }
        self.hooks.push(callback)
    }

    /// Removes a callback; it is not run again.
    pub fn unsubscrive(&mut self, id: Id)
        requires
            old(self).wf(),
        ensures
            final(self).wf(),
            final(self)@ == old(self)@.remove(id),
            !final(self)@.contains(id),
    {
        self.hooks.delete(id);
    }

    /// The subscribers in the order in which they registered.
    pub fn trigger_order(&self) -> (order: Vec<Id>)
        requires
            self.wf(),
        ensures
            order@ == registration_order(self@),
    {
        ids_by_registration(&self.hooks)
    }

    /// Runs every callback once, in the order of registration.
    pub fn trigger(&self)
        requires
            self.wf(),
            forall|id: Id| #[trigger] self@.contains(id) ==> self@.get(id).callable(),
        ensures
            forall|id: Id| #[trigger] self@.contains(id) ==> self@.get(id).called(),
    {
        let order = self.trigger_order();
        proof {
            lemma_registration_order(self@);
        }
        let mut k: usize = 0;
        while k < order.len()
            invariant
                k <= order.len(),
                order@ == registration_order(self@),
                forall|id: Id| #[trigger] self@.contains(id) ==> self@.get(id).callable(),
                forall|id: Id| #[trigger] order@.contains(id) <==> self@.contains(id),
                forall|j: int| 0 <= j < k ==> self@.get(#[trigger] order@[j]).called(),
            decreases order.len() - k,
        {
            assert(order@.contains(order@[k as int]));
            match self.hooks.get_ref(order[k]) {
                Some(callback) => callback.call(),
                None => {},
            }
            k += 1;
        }
        proof {
            assert forall|id: Id| #[trigger] self@.contains(id) implies self@.get(id).called() by {
                assert(order@.contains(id));
                let j = choose|j: int| 0 <= j < order@.len() && order@[j] == id;
                assert(self@.get(order@[j]).called());
            }
        }
    }
}

/// What a running computation holds to learn that it has been asked to
/// stop: a flag that it shares with whoever may ask, or nothing where
/// nobody can ask.
pub struct AsyncCallbackProcess {
    request_join: Option<Arc<AtomicBool>>,
}

/// At a checkpoint a computation goes on unless it has been asked to stop.
pub fn checkpoint(requested: bool) -> (go_on: Option<()>)
    ensures
        go_on.is_none() == requested,
{
    if requested {
        None
    } else {
        Some(())
    }
}

impl AsyncCallbackProcess {
    /// The flag through which the computation is asked to stop, if there
    /// is one.
    pub closed spec fn request(&self) -> Option<Arc<AtomicBool>> {
        self.request_join
    }

    /// Somebody can ask the computation to stop.
    pub open spec fn can_be_stopped(&self) -> bool {
        self.request() is Some
    }

    /// A process with the given flag; the flag is shared with whoever asks
    /// the computation to stop.
    pub fn new(request_join: Arc<AtomicBool>) -> (process: Self)
        ensures
            process.request() == Some(request_join),
    {
        Self { request_join: Some(request_join) }
    }

    /// A process that nobody can ask to stop: for a computation that is
    /// run to its end.
    pub fn unstoppable() -> (process: Self)
        ensures
            process.request().is_none(),
    {
        Self { request_join: None }
    }

    /// `None` once the computation has been asked to stop, so that `?`
    /// ends it at the checkpoint. Where there is a flag, what is read from
    /// it decides (see [`checkpoint`]); a computation that nobody can ask
    /// to stop always goes on.
    pub fn terminate_if_requested(&self) -> (go_on: Option<()>)
        ensures
            !self.can_be_stopped() ==> go_on.is_some(),
    {
        match &self.request_join {
            Some(flag) => checkpoint(flag.load(Ordering::SeqCst)),
            None => Some(()),
        }
    }
}

/// One scheduled run of a subscriber's computation.
#[derive(Debug, Clone, Copy, PartialEq, Eq, Structural)]
pub struct Job {
    pub subscription: Id,
    pub stamp: usize,
}

/// The books of one asynchronous subscriber: how many runs have been
/// scheduled, up to which they have been asked to stop, and which one
/// delivered last. Runs are stamped 1, 2, 3 and so on.
#[derive(Debug, Clone, Copy, PartialEq, Eq, Structural)]
pub struct AsyncCallback {
    pub scheduled: usize,
    pub stopped: usize,
    pub delivered: usize,
}

impl AsyncCallback {
    /// Only scheduled runs are stopped or have delivered.
    pub open spec fn wf(self) -> bool {
        self.stopped <= self.scheduled && self.delivered <= self.scheduled
    }

    /// The books after one more run has been scheduled.
    pub open spec fn schedule(self) -> AsyncCallback {
        AsyncCallback { scheduled: (self.scheduled + 1) as usize, ..self }
    }

    /// The books after every run scheduled so far has been asked to stop.
    pub open spec fn stop(self) -> AsyncCallback {
        AsyncCallback { stopped: self.scheduled, ..self }
    }

    /// The books after a trigger (`schedule`) or after a request to stop.
    pub open spec fn advance(self, schedule: bool) -> AsyncCallback {
        if schedule {
            self.schedule()
        } else {
            self.stop()
        }
    }

    /// The run has been asked to stop.
    pub open spec fn cancelled(self, stamp: usize) -> bool {
        stamp <= self.stopped
    }

    /// A result of the run may be delivered: the run has been scheduled,
    /// it has not been asked to stop, and no later run has delivered.
    pub open spec fn deliverable(self, stamp: usize) -> bool {
        self.stopped < stamp <= self.scheduled && self.delivered <= stamp
    }

    /// A subscriber without runs.
    pub fn new() -> (books: AsyncCallback)
        ensures
            books == (AsyncCallback { scheduled: 0, stopped: 0, delivered: 0 }),
    {
        AsyncCallback { scheduled: 0, stopped: 0, delivered: 0 }
    }

    /// Schedules a run and returns its stamp.
    pub fn call(&mut self) -> (stamp: usize)
        requires
            old(self).scheduled < usize::MAX,
        ensures
            *final(self) == old(self).schedule(),
            stamp == old(self).scheduled + 1,
    {
        self.scheduled = self.scheduled + 1;
        self.scheduled
    }

    /// Asks every run scheduled so far to stop.
    pub fn try_terminate_calls(&mut self)
        ensures
            *final(self) == old(self).stop(),
    {
        self.stopped = self.scheduled;
    }
}

/// The state of an asynchronous registry: the books of its subscribers and
/// the runs that are under way.
pub struct RegistryView {
    pub hooks: ArenaView<AsyncCallback>,
    pub running: Seq<Job>,
}

/// The runs of one subscriber among some runs, in their order.
pub open spec fn jobs_of(running: Seq<Job>, id: Id) -> Seq<Job>
    decreases running.len(),
{
    if running.len() == 0 {
        Seq::empty()
    } else if running.last().subscription == id {
        jobs_of(running.drop_last(), id).push(running.last())
    } else {
        jobs_of(running.drop_last(), id)
    }
}

/// The place of the first occurrence of `job`, or the length where there
/// is none.
pub open spec fn first_place(running: Seq<Job>, job: Job) -> int
    decreases running.len(),
{
    if running.len() == 0 || running[0] == job {
        0
    } else {
        1 + first_place(running.drop_first(), job)
    }
}

/// Some runs without the first occurrence of `job`.
pub open spec fn without(running: Seq<Job>, job: Job) -> Seq<Job> {
    if first_place(running, job) < running.len() {
        running.remove(first_place(running, job))
    } else {
        running
    }
}

proof fn lemma_first_place(running: Seq<Job>, job: Job, at: int)
    requires
        0 <= at <= running.len(),
        forall|k: int| 0 <= k < at ==> running[k] != job,
        at < running.len() ==> running[at] == job,
    ensures
        first_place(running, job) == at,
    decreases at,
{
    if at > 0 {
        let tail = running.drop_first();
        assert forall|k: int| 0 <= k < at - 1 implies tail[k] != job by {
            assert(tail[k] == running[k + 1]);
        }
        lemma_first_place(tail, job, at - 1);
    }
}

/// The runs that a trigger schedules: one for each subscriber, by rising
/// slot, stamped with the next stamp of that subscriber.
pub open spec fn scheduled_jobs(entries: Seq<(Id, AsyncCallback)>) -> Seq<Job> {
    entries.map_values(
        |e: (Id, AsyncCallback)| Job { subscription: e.0, stamp: (e.1.scheduled + 1) as usize },
    )
}

proof fn lemma_jobs_of_distinct(jobs: Seq<Job>, id: Id)
    requires
        forall|j: int, k: int|
            0 <= j < k < jobs.len() ==> (#[trigger] jobs[j]).subscription != (
            #[trigger] jobs[k]).subscription,
    ensures
        jobs_of(jobs, id).len() == (if exists|k: int|
            0 <= k < jobs.len() && (#[trigger] jobs[k]).subscription == id {
            1nat
        } else {
            0nat
        }),
    decreases jobs.len(),
{
    if jobs.len() > 0 {
        let front = jobs.drop_last();
        assert forall|j: int, k: int| 0 <= j < k < front.len() implies (
        #[trigger] front[j]).subscription != (#[trigger] front[k]).subscription by {
            assert(front[j] == jobs[j] && front[k] == jobs[k]);
        }
        lemma_jobs_of_distinct(front, id);
        let last = jobs.len() - 1;
        if jobs.last().subscription == id {
            assert(jobs[last].subscription == id);
            if exists|k: int| 0 <= k < front.len() && (#[trigger] front[k]).subscription == id {
                let k = choose|k: int|
                    0 <= k < front.len() && (#[trigger] front[k]).subscription == id;
                assert(front[k] == jobs[k]);
                assert(jobs[k].subscription != jobs[last].subscription);
            }
        } else {
            if exists|k: int| 0 <= k < front.len() && (#[trigger] front[k]).subscription == id {
                let k = choose|k: int|
                    0 <= k < front.len() && (#[trigger] front[k]).subscription == id;
                assert(front[k] == jobs[k]);
            }
            if exists|k: int| 0 <= k < jobs.len() && (#[trigger] jobs[k]).subscription == id {
                let k = choose|k: int|
                    0 <= k < jobs.len() && (#[trigger] jobs[k]).subscription == id;
                assert(k < last);
                assert(front[k] == jobs[k]);
            }
        }
    }
}

/// A trigger schedules one run for each subscriber, and none for a handle
/// that names no subscriber.
pub proof fn law_one_run_each(hooks: ArenaView<AsyncCallback>, id: Id)
    requires
        hooks.wf(),
    ensures
        jobs_of(scheduled_jobs(hooks.entries()), id).len() == (if hooks.contains(id) {
            1nat
        } else {
            0nat
        }),
{
    hooks.lemma_entries();
    let entries = hooks.entries();
    let jobs = scheduled_jobs(entries);
    assert forall|j: int, k: int| 0 <= j < k < jobs.len() implies (
    #[trigger] jobs[j]).subscription != (#[trigger] jobs[k]).subscription by {
        assert(jobs[j].subscription == entries[j].0);
        assert(jobs[k].subscription == entries[k].0);
        assert(entries[j].0.index < entries[k].0.index);
    }
    lemma_jobs_of_distinct(jobs, id);
    if hooks.contains(id) {
        assert(entries.contains((id, hooks.get(id))));
        let k = choose|k: int| 0 <= k < entries.len() && entries[k] == (id, hooks.get(id));
        assert(jobs[k].subscription == id);
    } else {
        if exists|k: int| 0 <= k < jobs.len() && (#[trigger] jobs[k]).subscription == id {
            let k = choose|k: int| 0 <= k < jobs.len() && (#[trigger] jobs[k]).subscription == id;
            assert(jobs[k].subscription == entries[k].0);
            assert(hooks.contains(entries[k].0));
        }
    }
}

/// After a subscriber has been removed, a trigger schedules no run for it,
/// and one run for each subscriber that is left.
pub proof fn law_trigger_after_unsubscribe(hooks: ArenaView<AsyncCallback>, gone: Id, left: Id)
    requires
        hooks.wf(),
        hooks.contains(left),
        left != gone,
    ensures
        jobs_of(scheduled_jobs(hooks.remove(gone).entries()), gone).len() == 0,
        jobs_of(scheduled_jobs(hooks.remove(gone).entries()), left).len() == 1,
{
    if hooks.contains(gone) {
        hooks.lemma_remove(gone);
    }
    hooks.lemma_remove_frame(gone);
    let after = hooks.remove(gone);
    assert(!after.contains(gone));
    assert(after.contains(left));
    law_one_run_each(after, gone);
    law_one_run_each(after, left);
}

impl RegistryView {
    /// The books are in order, and every run under way belongs to a
    /// subscriber that has been registered and bears a stamp that this
    /// subscriber has handed out.
    pub open spec fn wf(self) -> bool {
        &&& self.hooks.wf()
        &&& forall|id: Id| #[trigger] self.hooks.contains(id) ==> self.hooks.get(id).wf()
        &&& forall|k: int|
            0 <= k < self.running.len() ==> self.hooks.issued((#[trigger] self.running[k]).subscription)
                && (self.hooks.contains(self.running[k].subscription) ==> self.running[k].stamp
                <= self.hooks.get(self.running[k].subscription).scheduled)
    }

    /// The run has been asked to stop: its subscriber is gone, or has asked
    /// the runs up to this one to stop.
    pub open spec fn cancelled(self, job: Job) -> bool {
        !self.hooks.contains(job.subscription) || self.hooks.get(job.subscription).cancelled(
            job.stamp,
        )
    }

    /// The result of the run may be delivered.
    pub open spec fn deliverable(self, job: Job) -> bool {
        self.hooks.contains(job.subscription) && self.hooks.get(job.subscription).deliverable(
            job.stamp,
        )
    }

    /// `self` is a later state of the registry `earlier`.
    pub open spec fn succeeds(self, earlier: Self) -> bool {
        self.hooks.succeeds(earlier.hooks)
    }

    /// Being a later state is transitive, and every state is a later state
    /// of itself.
    pub proof fn lemma_succeeds(self, middle: Self, earlier: Self)
        requires
            self.succeeds(middle),
            middle.succeeds(earlier),
        ensures
            self.succeeds(earlier),
            self.succeeds(self),
    {
    }

    /// A state is in order where it comes from a state in order by
    /// changes that keep the books in order, take no scheduled run back,
    /// register subscribers under fresh handles only, and add only runs
    /// that their subscribers have scheduled.
    pub proof fn lemma_wf_later(self, earlier: Self)
        requires
            earlier.wf(),
            self.hooks.wf(),
            earlier.hooks.generation <= self.hooks.generation,
            forall|id: Id| #[trigger]
                self.hooks.contains(id) ==> {
                    &&& self.hooks.get(id).wf()
                    &&& earlier.hooks.contains(id) ==> earlier.hooks.get(id).scheduled
                        <= self.hooks.get(id).scheduled
                    &&& !earlier.hooks.contains(id) ==> !earlier.hooks.issued(id)
                },
            forall|k: int|
                0 <= k < self.running.len() ==> earlier.running.contains(#[trigger] self.running[k])
                    || (self.hooks.contains(self.running[k].subscription) && self.running[k].stamp
                    <= self.hooks.get(self.running[k].subscription).scheduled),
        ensures
            self.wf(),
    {
        assert forall|k: int| 0 <= k < self.running.len() implies self.hooks.issued(
            (#[trigger] self.running[k]).subscription,
        ) && (self.hooks.contains(self.running[k].subscription) ==> self.running[k].stamp
            <= self.hooks.get(self.running[k].subscription).scheduled) by {
            let job = self.running[k];
            if earlier.running.contains(job) {
                let j = choose|j: int| 0 <= j < earlier.running.len() && earlier.running[j] == job;
                assert(earlier.hooks.issued(earlier.running[j].subscription));
                if self.hooks.contains(job.subscription) {
                    assert(earlier.hooks.contains(job.subscription));
                }
            }
        }
    }

    /// Once a subscriber has been removed, no result of its runs is
    /// delivered in any later state of the registry, and each of its runs
    /// counts as asked to stop.
    pub proof fn law_no_delivery_after_unsubscribe(self, before: Self, id: Id, job: Job)
        requires
            before.hooks.wf(),
            before.hooks.contains(id),
            self.succeeds(RegistryView { hooks: before.hooks.remove(id), running: before.running }),
            job.subscription == id,
        ensures
            !self.deliverable(job),
            self.cancelled(job),
    {
        before.hooks.lemma_remove(id);
        let after = before.hooks.remove(id);
        assert(after.retired(id));
    }
}

/// Subscribers whose computations run elsewhere. The registry keeps their
/// books: it hands out the runs to start, tells which runs have been asked
/// to stop, and decides whether a result may still be delivered.
pub struct AsyncObservable {
    hooks: IdMap<AsyncCallback>,
    running: Vec<Job>,
}

impl View for AsyncObservable {
    type V = RegistryView;

    closed spec fn view(&self) -> RegistryView {
        RegistryView { hooks: self.hooks@, running: self.running@ }
    }
}

impl Default for AsyncObservable {
    fn default() -> (made: Self)
        ensures
            made@.hooks == ArenaView::<AsyncCallback>::empty(),
            made@.running == Seq::<Job>::empty(),
            made.wf(),
    {
        Self { hooks: IdMap::new(), running: Vec::new() }
    }
}

impl AsyncObservable {
    /// Consistency of the registry (see [`RegistryView::wf`]).
    pub open spec fn wf(&self) -> bool {
        self@.wf()
    }

    /// Every subscriber can take one more run.
    pub open spec fn can_schedule(&self) -> bool {
        forall|id: Id| #[trigger]
            self@.hooks.contains(id) ==> self@.hooks.get(id).scheduled < usize::MAX
    }

    /// Whether one more subscriber can be registered.
    pub fn can_subscribe(&self) -> (room: bool)
        ensures
            room == (self@.hooks.generation < usize::MAX),
    {
        self.hooks.last_generation() < usize::MAX
    }

    /// Whether every subscriber can take one more run (see
    /// [`AsyncObservable::can_schedule`]).
    pub fn can_trigger(&self) -> (room: bool)
        requires
            self.wf(),
        ensures
            room == self.can_schedule(),
    {
        let ids = self.hooks.ids();
        let ghost entries = self@.hooks.entries();
        proof {
            self@.hooks.lemma_entries();
        }
        let mut i: usize = 0;
        while i < ids.len()
            invariant
                i <= ids.len(),
                ids@ == crate::id_map::entry_ids(entries),
                entries == self@.hooks.entries(),
                forall|k: int|
                    0 <= k < entries.len() ==> self@.hooks.contains((#[trigger] entries[k]).0)
                        && self@.hooks.get(entries[k].0) == entries[k].1,
                forall|k: int|
                    0 <= k < i ==> self@.hooks.get((#[trigger] entries[k]).0).scheduled
                        < usize::MAX,
            decreases ids.len() - i,
        {
            proof {
                assert(ids@[i as int] == entries[i as int].0);
                assert(self@.hooks.contains(entries[i as int].0));
            }
            match self.hooks.get_ref(ids[i]) {
                Some(books) => {
                    if books.scheduled == usize::MAX {
                        return false;
                    }
                },
                None => {},
            }
            i += 1;
        }
        proof {
            assert forall|id: Id| #[trigger] self@.hooks.contains(id) implies self@.hooks.get(
                id,
            ).scheduled < usize::MAX by {
                let k = choose|k: int|
                    0 <= k < entries.len() && entries[k] == (id, self@.hooks.get(id));
                assert(entries[k].0 == id);
            }
        }
        true
    }

    /// Registers a subscriber and, if `trigger_now`, schedules its first
    /// run, which the caller is to start.
    pub fn subscrive(&mut self, trigger_now: bool) -> (registered: (Id, Option<Job>))
        requires
            old(self).wf(),
            old(self)@.hooks.generation < usize::MAX,
        ensures
            final(self).wf(),
            final(self)@.succeeds(old(self)@),
            registered.0 == old(self)@.hooks.insert_id(),
            !old(self)@.hooks.contains(registered.0),
            final(self)@.hooks == old(self)@.hooks.insert(
                AsyncCallback {
                    scheduled: if trigger_now {
                        1
                    } else {
                        0
                    },
                    stopped: 0,
                    delivered: 0,
                },
            ),
            registered.1 == (if trigger_now {
                Some(Job { subscription: registered.0, stamp: 1 })
            } else {
                None
            }),
            final(self)@.running == (if trigger_now {
                old(self)@.running.push(Job { subscription: registered.0, stamp: 1 })
            } else {
                old(self)@.running
            }),
            trigger_now ==> final(self)@.deliverable(registered.1->0),
    {
        let mut books = AsyncCallback::new();
        let stamp = if trigger_now {
            books.call()
        } else {
            0
        };
        let ghost before = self@;
        proof {
            before.hooks.lemma_step_succeeds(crate::id_map::ArenaOp::Insert(books));
            before.hooks.lemma_insert(books);
            before.hooks.lemma_insert_frame(books);
        }
        let id = self.hooks.push(books);
        let registered = if trigger_now {
            let job = Job { subscription: id, stamp };
            self.running.push(job);
            (id, Some(job))
        } else {
            (id, None)
        };
        proof {
            assert forall|k: int| 0 <= k < self@.running.len() implies before.running.contains(
                #[trigger] self@.running[k],
            ) || (self@.hooks.contains(self@.running[k].subscription) && self@.running[k].stamp
                <= self@.hooks.get(self@.running[k].subscription).scheduled) by {
                if k < before.running.len() {
                    assert(before.running[k] == self@.running[k]);
                }
            }
            self@.lemma_wf_later(before);
        }
        registered
    }

    /// Removes a subscriber. Its runs that are under way are returned, to
    /// be asked to stop; their results are never delivered.
    pub fn unsubscrive(&mut self, id: Id) -> (orphans: Vec<Job>)
        requires
            old(self).wf(),
        ensures
            final(self).wf(),
            final(self)@.succeeds(old(self)@),
            final(self)@.hooks == old(self)@.hooks.remove(id),
            final(self)@.running == old(self)@.running,
            orphans@ == jobs_of(old(self)@.running, id),
            !final(self)@.hooks.contains(id),
            forall|job: Job| job.subscription == id ==> !(#[trigger] final(self)@.deliverable(job)),
    {
        let ghost before = self@;
        proof {
            if before.hooks.contains(id) {
                before.hooks.lemma_remove(id);
            }
            before.hooks.lemma_remove_frame(id);
        }
        self.hooks.delete(id);
        proof {
            assert forall|k: int| 0 <= k < self@.running.len() implies before.running.contains(
                #[trigger] self@.running[k],
            ) by {
                assert(before.running[k] == self@.running[k]);
            }
            self@.lemma_wf_later(before);
        }
        let mut orphans: Vec<Job> = Vec::new();
        let mut i: usize = 0;
        proof {
            assert(self.running@.subrange(0, 0) =~= Seq::empty());
        }
        while i < self.running.len()
            invariant
                i <= self.running.len(),
                self@ == (RegistryView { hooks: before.hooks.remove(id), running: before.running }),
                self.wf(),
                orphans@ == jobs_of(self.running@.subrange(0, i as int), id),
            decreases self.running.len() - i,
        {
            proof {
                let longer = self.running@.subrange(0, i + 1);
                assert(longer.drop_last() =~= self.running@.subrange(0, i as int));
                assert(longer.last() == self.running@[i as int]);
            }
            if self.running[i].subscription == id {
                orphans.push(self.running[i]);
            }
            i += 1;
        }
        proof {
            assert(self.running@.subrange(0, i as int) =~= self.running@);
        }
        orphans
    }

    /// Brings the books of every subscriber forward, by rising slot: with
    /// `schedule` each gets a fresh run, which is returned and counted as
    /// under way; without it each has its runs asked to stop.
    fn advance_all(&mut self, schedule: bool) -> (jobs: Vec<Job>)
        requires
            old(self).wf(),
            schedule ==> old(self).can_schedule(),
        ensures
            final(self).wf(),
            final(self)@.succeeds(old(self)@),
            jobs@ == (if schedule {
                scheduled_jobs(old(self)@.hooks.entries())
            } else {
                Seq::empty()
            }),
            final(self)@.running == old(self)@.running + jobs@,
            final(self)@.hooks.generation == old(self)@.hooks.generation,
            forall|id: Id| #[trigger]
                final(self)@.hooks.contains(id) == old(self)@.hooks.contains(id),
            forall|id: Id|
                old(self)@.hooks.contains(id) ==> #[trigger] final(self)@.hooks.get(id) == old(self)@.hooks.get(id).advance(schedule),
    {
        let ids = self.hooks.ids();
        let ghost before = self@.hooks;
        let ghost entries = before.entries();
        let ghost ran = self.running@;
        let mut jobs: Vec<Job> = Vec::new();
        let mut i: usize = 0;
        proof {
            before.lemma_entries();
            assert(scheduled_jobs(entries.subrange(0, 0)) =~= Seq::empty());
            assert(ran + Seq::<Job>::empty() =~= ran);
        }
        while i < ids.len()
            invariant
                i <= ids.len(),
                ids@ == crate::id_map::entry_ids(entries),
                entries == before.entries(),
                before.wf(),
                self.wf(),
                schedule ==> forall|id: Id| #[trigger]
                    before.contains(id) ==> before.get(id).scheduled < usize::MAX,
                forall|k: int|
                    0 <= k < entries.len() ==> before.contains((#[trigger] entries[k]).0)
                        && before.get(entries[k].0) == entries[k].1,
                forall|j: int, k: int|
                    0 <= j < k < entries.len() ==> (#[trigger] entries[j]).0.index < (
                    #[trigger] entries[k]).0.index,
                self@.hooks.generation == before.generation,
                forall|id: Id| #[trigger] self@.hooks.contains(id) == before.contains(id),
                forall|id: Id|
                    before.contains(id) ==> #[trigger] self@.hooks.get(id) == (if exists|k: int|
                        0 <= k < i && (#[trigger] entries[k]).0 == id {
                        before.get(id).advance(schedule)
                    } else {
                        before.get(id)
                    }),
                jobs@ == (if schedule {
                    scheduled_jobs(entries.subrange(0, i as int))
                } else {
                    Seq::empty()
                }),
                self.running@ == ran + jobs@,
            decreases ids.len() - i,
        {
            let id = ids[i];
            let ghost hooks1 = self@.hooks;
            let ghost run1 = self.running@;
            proof {
                assert(id == entries[i as int].0);
                assert(before.contains(id));
                assert(hooks1.contains(id));
                if exists|k: int| 0 <= k < i && (#[trigger] entries[k]).0 == id {
                    let k = choose|k: int| 0 <= k < i && (#[trigger] entries[k]).0 == id;
                    assert(entries[k].0.index < entries[i as int].0.index);
                }
                assert(hooks1.get(id) == before.get(id));
            }
            let mut books = match self.hooks.get_ref(id) {
                Some(books) => *books,
                None => AsyncCallback::new(),
            };
            let ghost jobs1 = jobs@;
            if schedule {
                let stamp = books.call();
                let job = Job { subscription: id, stamp };
                jobs.push(job);
                self.running.push(job);
                proof {
                    assert(scheduled_jobs(entries.subrange(0, i + 1)) =~= scheduled_jobs(
                        entries.subrange(0, i as int),
                    ).push(job));
                    assert(self.running@ =~= ran + jobs@);
                }
            } else {
                books.try_terminate_calls();
            }
            proof {
                hooks1.lemma_update(id, books);
                hooks1.lemma_update_frame(id, books);
            }
            self.hooks.update(id, books);
            proof {
                let hooks2 = self@.hooks;
                assert forall|other: Id| before.contains(other) implies #[trigger] hooks2.get(other)
                    == (if exists|k: int| 0 <= k < i + 1 && (#[trigger] entries[k]).0 == other {
                    before.get(other).advance(schedule)
                } else {
                    before.get(other)
                }) by {
                    if other == id {
                        assert(entries[i as int].0 == other);
                    } else {
                        assert(hooks1.contains(other));
                        assert(hooks2.get(other) == hooks1.get(other));
                        if exists|k: int| 0 <= k < i + 1 && (#[trigger] entries[k]).0 == other {
                            let k = choose|k: int|
                                0 <= k < i + 1 && (#[trigger] entries[k]).0 == other;
                            assert(k < i);
                        }
                    }
                }
                let state1 = RegistryView { hooks: hooks1, running: run1 };
                assert forall|other: Id| #[trigger] hooks2.contains(other) implies {
                    &&& hooks2.get(other).wf()
                    &&& hooks1.contains(other) ==> hooks1.get(other).scheduled <= hooks2.get(
                        other,
                    ).scheduled
                    &&& !hooks1.contains(other) ==> !hooks1.issued(other)
                } by {
                    assert(hooks1.contains(other));
                    assert(hooks1.get(other).wf());
                    if other != id {
                        assert(hooks2.get(other) == hooks1.get(other));
                    }
                }
                assert forall|k: int| 0 <= k < self@.running.len() implies run1.contains(
                    #[trigger] self@.running[k],
                ) || (hooks2.contains(self@.running[k].subscription) && self@.running[k].stamp
                    <= hooks2.get(self@.running[k].subscription).scheduled) by {
                    if k < run1.len() {
                        assert(run1[k] == self@.running[k]);
                    }
                }
                self@.lemma_wf_later(state1);
            }
            i += 1;
        }
        proof {
            assert(entries.subrange(0, i as int) =~= entries);
            assert forall|id: Id| before.contains(id) implies #[trigger] self@.hooks.get(id)
                == before.get(id).advance(schedule) by {
                let k = choose|k: int|
                    0 <= k < entries.len() && entries[k] == (id, before.get(id));
                assert(entries[k].0 == id);
            }
            assert forall|id: Id| #[trigger] before.retired(id) implies self@.hooks.retired(id) by {
                assert(self@.hooks.contains(id) == before.contains(id));
            }
        }
        jobs
    }

    /// Schedules a fresh run for every subscriber, by rising slot, and
    /// returns the runs for the caller to start. Each of them may deliver
    /// until it is asked to stop or a later run delivers.
    pub fn trigger(&mut self) -> (jobs: Vec<Job>)
        requires
            old(self).wf(),
            old(self).can_schedule(),
        ensures
            final(self).wf(),
            final(self)@.succeeds(old(self)@),
            jobs@ == scheduled_jobs(old(self)@.hooks.entries()),
            final(self)@.running == old(self)@.running + jobs@,
            final(self)@.hooks.map() == old(self)@.hooks.map().map_values(
                |books: AsyncCallback| books.schedule(),
            ),
            forall|k: int| 0 <= k < jobs@.len() ==> final(self)@.deliverable(#[trigger] jobs@[k]),
            forall|id: Id|
                (#[trigger] jobs_of(jobs@, id)).len() == (if old(self)@.hooks.contains(id) {
                    1nat
                } else {
                    0nat
                }),
    {
        let ghost before = self@.hooks;
        let jobs = self.advance_all(true);
        proof {
            before.lemma_entries();
            assert forall|id: Id|
                (#[trigger] jobs_of(jobs@, id)).len() == (if before.contains(id) {
                    1nat
                } else {
                    0nat
                }) by {
                law_one_run_each(before, id);
            }
            assert(self@.hooks.map() =~= before.map().map_values(
                |books: AsyncCallback| books.schedule(),
            ));
            assert forall|k: int| 0 <= k < jobs@.len() implies self@.deliverable(
                #[trigger] jobs@[k],
            ) by {
                let e = before.entries()[k];
                assert(before.contains(e.0) && before.get(e.0) == e.1);
                assert(self@.hooks.contains(e.0));
                assert(self@.hooks.get(e.0) == e.1.advance(true));
                assert(e.1.wf());
            }
        }
        jobs
    }

    /// Asks every run that is under way to stop: returns those runs and
    /// records the request with every subscriber.
    pub fn stop_trigger(&mut self) -> (stopped: Vec<Job>)
        requires
            old(self).wf(),
        ensures
            final(self).wf(),
            final(self)@.succeeds(old(self)@),
            stopped@ == old(self)@.running,
            final(self)@.running == old(self)@.running,
            final(self)@.hooks.map() == old(self)@.hooks.map().map_values(
                |books: AsyncCallback| books.stop(),
            ),
            forall|k: int| 0 <= k < stopped@.len() ==> final(self)@.cancelled(#[trigger] stopped@[k]),
    {
        let ghost before = self@;
        let _ = self.advance_all(false);
        proof {
            assert(before.running + Seq::<Job>::empty() =~= before.running);
            assert(self@.hooks.map() =~= before.hooks.map().map_values(
                |books: AsyncCallback| books.stop(),
            ));
            assert forall|k: int| 0 <= k < before.running.len() implies self@.cancelled(
                #[trigger] before.running[k],
            ) by {
                let sub = before.running[k].subscription;
                if self@.hooks.contains(sub) {
                    assert(before.hooks.contains(sub));
                    assert(self@.hooks.get(sub) == before.hooks.get(sub).advance(false));
                }
            }
        }
        self.running.clone()
    }

    /// Whether a run has been asked to stop, for the run to ask at its
    /// checkpoints.
    pub fn terminate_requested(&self, job: Job) -> (requested: bool)
        ensures
            requested == self@.cancelled(job),
    {
        match self.hooks.get_ref(job.subscription) {
            Some(books) => job.stamp <= books.stopped,
            None => true,
        }
    }

    /// Decides whether a result of a run is delivered, and records the
    /// delivery. A result is dropped where its subscriber is gone, where
    /// the run has been asked to stop, and where a later run of the
    /// subscriber has delivered already.
    pub fn deliver(&mut self, job: Job) -> (delivered: bool)
        requires
            old(self).wf(),
        ensures
            final(self).wf(),
            final(self)@.succeeds(old(self)@),
            delivered == old(self)@.deliverable(job),
            final(self)@.running == old(self)@.running,
            final(self)@.hooks == (if delivered {
                old(self)@.hooks.update(
                    job.subscription,
                    AsyncCallback {
                        delivered: job.stamp,
                        ..old(self)@.hooks.get(job.subscription)
                    },
                )
            } else {
                old(self)@.hooks
            }),
            forall|older: Job|
                older.subscription == job.subscription && older.stamp < job.stamp && delivered
                    ==> !(#[trigger] final(self)@.deliverable(older)),
    {
        let books = match self.hooks.get_ref(job.subscription) {
            Some(books) => *books,
            None => {
                return false;
            },
        };
        if books.stopped < job.stamp && job.stamp <= books.scheduled && books.delivered
            <= job.stamp {
            let updated = AsyncCallback { delivered: job.stamp, ..books };
            let ghost hooks1 = self@.hooks;
            proof {
                hooks1.lemma_update(job.subscription, updated);
                hooks1.lemma_update_frame(job.subscription, updated);
            }
            self.hooks.update(job.subscription, updated);
            proof {
                let hooks2 = self@.hooks;
                let state1 = RegistryView { hooks: hooks1, running: self@.running };
                assert forall|other: Id| #[trigger] hooks2.contains(other) implies {
                    &&& hooks2.get(other).wf()
                    &&& hooks1.contains(other) ==> hooks1.get(other).scheduled <= hooks2.get(
                        other,
                    ).scheduled
                    &&& !hooks1.contains(other) ==> !hooks1.issued(other)
                } by {
                    assert(hooks1.contains(other));
                    assert(hooks1.get(other).wf());
                    if other != job.subscription {
                        assert(hooks2.get(other) == hooks1.get(other));
                    }
                }
                assert forall|k: int| 0 <= k < self@.running.len() implies state1.running.contains(
                    #[trigger] self@.running[k],
                ) by {
                    assert(state1.running[k] == self@.running[k]);
                }
                self@.lemma_wf_later(state1);
                assert forall|id: Id| #[trigger] hooks1.retired(id) implies hooks2.retired(id) by {
                    assert(hooks2.contains(id) == hooks1.contains(id));
                }
            }
            true
        } else {
            false
        }
    }

    /// Records that a run has ended and has been joined.
    pub fn finished(&mut self, job: Job)
        requires
            old(self).wf(),
        ensures
            final(self).wf(),
            final(self)@.hooks == old(self)@.hooks,
            final(self)@.running == without(old(self)@.running, job),
    {
        let mut i: usize = 0;
        while i < self.running.len()
            invariant
                i <= self.running.len(),
                self.running@ == old(self).running@,
                self.hooks@ == old(self).hooks@,
                self.wf(),
                forall|k: int| 0 <= k < i ==> self.running@[k] != job,
            decreases self.running.len() - i,
        {
            if self.running[i] == job {
                let ghost was = self.running@;
                proof {
                    lemma_first_place(was, job, i as int);
                }
                self.running.remove(i);
                proof {
                    let state1 = RegistryView { hooks: self@.hooks, running: was };
                    assert forall|k: int| 0 <= k < self@.running.len() implies was.contains(
                        #[trigger] self@.running[k],
                    ) by {
                        if k < i {
                            assert(self.running@[k] == was[k]);
                        } else {
                            assert(self.running@[k] == was[k + 1]);
                        }
                    }
                    assert forall|other: Id| #[trigger] self@.hooks.contains(other) implies {
                        &&& self@.hooks.get(other).wf()
                        &&& !state1.hooks.contains(other) ==> !state1.hooks.issued(other)
                    } by {
                        assert(state1.hooks.contains(other));
                    }
                    self@.lemma_wf_later(state1);
                }
                return ;
            }
            i += 1;
        }
        proof {
            lemma_first_place(self.running@, job, i as int);
        }
    }

    /// Ends the registry: returns every run that is under way, for the
    /// caller to ask to stop and to join. Nothing is delivered afterwards,
    /// for there is no registry left to deliver through.
    pub fn teardown(self) -> (left: Vec<Job>)
        ensures
            left@ == self@.running,
    {
        self.running
    }
}

} // verus!
