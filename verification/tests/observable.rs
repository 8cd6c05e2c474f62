use archive_core::id_map::Id;
use archive_core::observable::{
    checkpoint, AsyncCallbackProcess, AsyncObservable, Callback, Job, Observable,
};
use std::sync::atomic::{AtomicBool, AtomicI8, Ordering};
use std::sync::{Arc, Mutex};

type Counter = Arc<AtomicI8>;

#[test]
fn mod_subscrive_and_triger() {
    let has_been_triggered = Arc::new(AtomicI8::new(0));

    let mut observable = Observable::<Counter, fn(&Counter)>::default();

    observable.subscrive(
        Callback::new(has_been_triggered.clone(), |ctx| {
            ctx.fetch_add(2, Ordering::SeqCst);
        }),
        false,
    );

    observable.subscrive(
        Callback::new(has_been_triggered.clone(), |ctx| {
            ctx.fetch_add(3, Ordering::SeqCst);
        }),
        true,
    );

    observable.trigger();
    assert_eq!(8, has_been_triggered.load(Ordering::SeqCst));
}

#[test]
fn observable_subscrive_and_triger() {
    let has_been_triggered = Arc::new(AtomicI8::new(0));

    let mut observable = Observable::<Counter, fn(&Counter)>::default();

    observable.subscrive(
        Callback::new(has_been_triggered.clone(), |ctx| {
            ctx.fetch_add(2, Ordering::SeqCst);
        }),
        false,
    );
    assert_eq!(0, has_been_triggered.load(Ordering::SeqCst));

    observable.trigger();
    observable.trigger();
    assert_eq!(4, has_been_triggered.load(Ordering::SeqCst));
}

#[test]
fn mod_subscrive_unsubscrive_and_triger() {
    let has_been_triggered = Arc::new(AtomicI8::new(0));

    let mut observable = Observable::<Counter, fn(&Counter)>::default();

    let id = observable.subscrive(
        Callback::new(has_been_triggered.clone(), |ctx| {
            ctx.fetch_add(3, Ordering::SeqCst);
        }),
        true,
    );
    observable.unsubscrive(id);
    observable.trigger();

    assert_eq!(3, has_been_triggered.load(Ordering::SeqCst));
}

#[test]
fn observable_subscrive_unsubscrive_and_triger() {
    let has_been_triggered = Arc::new(AtomicI8::new(0));

    let mut observable = Observable::<Counter, fn(&Counter)>::default();

    let id = observable.subscrive(
        Callback::new(has_been_triggered.clone(), |ctx| {
            ctx.fetch_add(3, Ordering::SeqCst);
        }),
        false,
    );
    observable.unsubscrive(id);
    observable.unsubscrive(id);
    observable.trigger();

    assert_eq!(0, has_been_triggered.load(Ordering::SeqCst));
}

#[test]
fn callbacks_run_in_the_order_of_registration() {
    type Log = Arc<Mutex<Vec<u8>>>;
    let log: Log = Arc::new(Mutex::new(vec![]));
    let mut observable = Observable::<(Log, u8), fn(&(Log, u8))>::default();
    let note: fn(&(Log, u8)) = |ctx| ctx.0.lock().unwrap().push(ctx.1);

    let first = observable.subscrive(Callback::new((log.clone(), 1), note), false);
    let second = observable.subscrive(Callback::new((log.clone(), 2), note), false);
    observable.unsubscrive(first);
    // takes the slot of the first, and has registered last
    let third = observable.subscrive(Callback::new((log.clone(), 3), note), false);
    assert_eq!(first.index, third.index);

    assert_eq!(vec![second, third], observable.trigger_order());
    observable.trigger();
    assert_eq!(vec![2, 3], *log.lock().unwrap());
}

#[test]
fn a_callback_is_what_it_was_made_of() {
    let count = Arc::new(AtomicI8::new(0));
    let callback = Callback::new(count.clone(), |ctx: &Counter| {
        ctx.fetch_add(1, Ordering::SeqCst);
    });
    callback.call();
    callback.call();
    assert_eq!(2, count.load(Ordering::SeqCst));
}

#[test]
fn a_process_stops_at_a_checkpoint_once_asked() {
    let flag = Arc::new(AtomicBool::new(false));
    let process = AsyncCallbackProcess::new(flag.clone());
    assert_eq!(Some(()), process.terminate_if_requested());
    flag.store(true, Ordering::SeqCst);
    assert_eq!(None, process.terminate_if_requested());
    assert_eq!(Some(()), checkpoint(false));
    assert_eq!(None, checkpoint(true));
}

#[test]
fn a_process_that_nobody_can_ask_to_stop_goes_on() {
    let process = AsyncCallbackProcess::unstoppable();
    assert_eq!(Some(()), process.terminate_if_requested());
    assert_eq!(Some(()), process.terminate_if_requested());
}

#[test]
fn mod_async_instant_trigger() {
    let mut observable = AsyncObservable::default();
    let (id, job) = observable.subscrive(true);
    let job = job.unwrap();
    assert_eq!(Job { subscription: id, stamp: 1 }, job);
    assert!(!observable.terminate_requested(job));
    assert!(observable.deliver(job));
    // a run may deliver more than one result
    assert!(observable.deliver(job));
    observable.finished(job);
    assert_eq!(Vec::<Job>::new(), observable.teardown());
}

#[test]
fn mod_async_trigger() {
    let mut observable = AsyncObservable::default();
    let (id, first) = observable.subscrive(true);
    let jobs = observable.trigger();
    assert_eq!(vec![Job { subscription: id, stamp: 2 }], jobs);
    // both runs are under way and both may deliver, the older one first
    assert!(observable.deliver(first.unwrap()));
    assert!(observable.deliver(jobs[0]));
    assert_eq!(vec![first.unwrap(), jobs[0]], observable.teardown());
}

#[test]
fn observable_async_trigger() {
    let mut observable = AsyncObservable::default();
    let (a, none) = observable.subscrive(false);
    assert_eq!(None, none);
    let (b, _) = observable.subscrive(true);
    let jobs = observable.trigger();
    assert_eq!(
        vec![
            Job { subscription: a, stamp: 1 },
            Job { subscription: b, stamp: 2 }
        ],
        jobs
    );
    // the newer run of b delivers first: the older result is dropped
    assert!(observable.deliver(jobs[1]));
    assert!(!observable.deliver(Job { subscription: b, stamp: 1 }));
    assert!(observable.deliver(jobs[0]));
}

#[test]
fn nothing_is_delivered_after_unsubscribe() {
    let mut observable = AsyncObservable::default();
    let (id, job) = observable.subscrive(true);
    let job = job.unwrap();
    let orphans = observable.unsubscrive(id);
    assert_eq!(vec![job], orphans);
    assert!(observable.terminate_requested(job));
    assert!(!observable.deliver(job));

    // a later subscriber takes the slot; the old run still delivers nothing
    let (other, fresh) = observable.subscrive(true);
    assert_eq!(id.index, other.index);
    assert!(other.identifier > id.identifier);
    observable.trigger();
    assert!(!observable.deliver(job));
    assert!(!observable.deliver(Job { subscription: id, stamp: 2 }));
    assert!(observable.deliver(fresh.unwrap()));

    // the books of the old run are kept until it has ended
    observable.finished(job);
    let left = observable.teardown();
    assert!(!left.contains(&job));
    assert_eq!(2, left.len());
}

#[test]
fn runs_that_are_asked_to_stop_deliver_nothing() {
    let mut observable = AsyncObservable::default();
    let (id, _) = observable.subscrive(false);
    let before = observable.trigger();
    let stopped = observable.stop_trigger();
    assert_eq!(before, stopped);
    assert!(observable.terminate_requested(before[0]));
    assert!(!observable.deliver(before[0]));
    let after = observable.trigger();
    assert_eq!(vec![Job { subscription: id, stamp: 2 }], after);
    assert!(!observable.terminate_requested(after[0]));
    assert!(observable.deliver(after[0]));
    // a run that was never scheduled delivers nothing
    assert!(!observable.deliver(Job { subscription: id, stamp: 9 }));
    assert!(!observable.deliver(Job {
        subscription: Id { index: 5, identifier: 5 },
        stamp: 1
    }));
}

#[test]
fn a_registry_tells_whether_it_has_room() {
    let mut observable = AsyncObservable::default();
    assert!(observable.can_subscribe());
    assert!(observable.can_trigger());
    observable.subscrive(true);
    assert!(observable.can_trigger());
    let sync = Observable::<Counter, fn(&Counter)>::default();
    assert!(sync.can_subscribe());
}

#[test]
fn a_trigger_schedules_one_run_for_each_subscriber_that_is_left() {
    let mut observable = AsyncObservable::default();
    let (first, _) = observable.subscrive(false);
    let (second, _) = observable.subscrive(false);
    let jobs = observable.trigger();
    assert_eq!(
        vec![Job { subscription: first, stamp: 1 }, Job { subscription: second, stamp: 1 }],
        jobs
    );

    observable.unsubscrive(first);
    let jobs = observable.trigger();
    assert_eq!(vec![Job { subscription: second, stamp: 2 }], jobs);
    assert!(jobs.iter().all(|job| job.subscription != first));
    assert!(observable.deliver(jobs[0]));
    assert!(!observable.deliver(Job { subscription: first, stamp: 1 }));
}
