use archive_core::hook::HookPool;
use std::sync::{Arc, Mutex};

type BoxedHook = Box<dyn Fn(&i32) -> bool>;

#[test]
fn dispatch_on_a_new_hook() {
    let mut hook = HookPool::<BoxedHook>::new();
    hook.dispatch(&123);
    assert_eq!(0, hook.count_hooks());
}

#[test]
fn hook_receives_events() {
    let value = Arc::new(Mutex::new(0));
    {
        let mut pool = HookPool::<BoxedHook>::new();
        let value = value.clone();
        pool.hook(Box::new(move |event| {
            *value.lock().unwrap() = *event;
            false
        }));
        assert_eq!(1, pool.count_hooks());
        pool.dispatch(&123);
    }
    assert_eq!(123, *value.lock().unwrap());
}

#[test]
fn hook_and_release_do_not_receive_events() {
    let value = Arc::new(Mutex::new(3));
    {
        let mut pool = HookPool::<BoxedHook>::new();
        let value = value.clone();
        let id = pool.hook(Box::new(move |event| {
            *value.lock().unwrap() = *event;
            false
        }));
        pool.release(id);
        pool.dispatch(&123);
    }
    assert_eq!(3, *value.lock().unwrap());
}

#[test]
fn multiple_hooks() {
    let value = Arc::new(Mutex::new(0));
    {
        let mut pool = HookPool::<BoxedHook>::new();
        let adder = |value: &Arc<Mutex<i32>>| -> BoxedHook {
            let value = value.clone();
            Box::new(move |event| {
                *value.lock().unwrap() += *event;
                false
            })
        };

        pool.hook(adder(&value));
        let id = pool.hook(adder(&value));
        pool.hook(adder(&value));
        pool.hook(adder(&value));

        pool.release(id);
        pool.dispatch(&100);
    }
    assert_eq!(300, *value.lock().unwrap());
}

#[test]
fn release_on_receive() {
    let value = Arc::new(Mutex::new(0));
    {
        let mut pool = HookPool::<BoxedHook>::new();

        let value = value.clone();
        pool.hook(Box::new(move |event| {
            *value.lock().unwrap() += *event;
            true
        }));

        pool.dispatch(&123);
        assert_eq!(0, pool.count_hooks());
        pool.dispatch(&123);
    }
    assert_eq!(123, *value.lock().unwrap());
}
