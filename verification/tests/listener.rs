use cordis::listener::{
    around, mapper, mapper_sync, observer, observer_sync, responder, responder_sync, with_state, ListenerOptions,
    ListenerRegistrationError, ListenerStore,
};
use cordis::runtime::{Context, Root};

#[test]
fn options_default_to_append_scoped_repeatable() {
    let options = ListenerOptions::default();
    assert!(!options.is_prepend());
    assert!(!options.is_global());
    assert!(!options.is_once());
    let all = options.prepend().global().once();
    assert!(all.is_prepend() && all.is_global() && all.is_once());
    let only_once = ListenerOptions::default().once();
    assert!(!only_once.is_prepend() && !only_once.is_global() && only_once.is_once());
}

#[test]
fn prepend_is_outermost_in_its_stream() {
    let mut root: Root<u32> = Root::new(1);
    let a = root.spawn(Vec::new());
    let ctx = Context::new(a);
    let e = "evt".to_string();
    let first = ctx.register_listener(&mut root, &e, ListenerOptions::default()).unwrap();
    let second = ctx.register_listener(&mut root, &e, ListenerOptions::default()).unwrap();
    let front = ctx.register_listener(&mut root, &e, ListenerOptions::default().prepend()).unwrap();
    let other = ctx.register_listener(&mut root, &"other".to_string(), ListenerOptions::default()).unwrap();
    assert_eq!(root.listeners.stream(&e), vec![front.id(), first.id(), second.id()]);
    assert_eq!(root.listeners.stream(&"other".to_string()), vec![other.id()]);
}

#[test]
fn removal_unregisters_exactly_once() {
    let mut root: Root<u32> = Root::new(1);
    let a = root.spawn(Vec::new());
    let ctx = Context::new(a);
    let e = "evt".to_string();
    let keep = ctx.register_listener(&mut root, &e, ListenerOptions::default()).unwrap();
    let gone = ctx.register_listener(&mut root, &e, ListenerOptions::default()).unwrap();
    let gone_id = gone.id();
    assert!(gone.remove(&mut root));
    assert_eq!(root.listeners.stream(&e), vec![keep.id()]);
    assert!(!root.listeners.remove(gone_id));
}

#[test]
fn closed_generation_registers_nothing() {
    let mut root: Root<u32> = Root::new(1);
    let a = root.spawn(Vec::new());
    root.fibers.set_flags(a, true, false, false);
    let e = "evt".to_string();
    let refused = Context::new(a).register_listener(&mut root, &e, ListenerOptions::default());
    assert!(matches!(refused, Err(ListenerRegistrationError::InactiveContext)));
    assert!(root.listeners.stream(&e).is_empty());
}

#[test]
fn store_ids_are_fresh() {
    let mut store = ListenerStore::new();
    let a = store.register("e".to_string(), ListenerOptions::default(), 1);
    let b = store.register("e".to_string(), ListenerOptions::default(), 1);
    assert_ne!(a, b);
    assert!(store.remove(a));
    assert!(!store.remove(a));
    assert_eq!(store.stream(&"e".to_string()), vec![b]);
}

#[test]
fn adapters_wrap_their_callback() {
    assert_eq!(observer(3).0, 3);
    assert_eq!(observer_sync(4).0, 4);
    assert_eq!(responder(5).0, 5);
    assert_eq!(responder_sync(6).0, 6);
    assert_eq!(mapper::<u8, _>(7).0, 7);
    assert_eq!(mapper_sync::<u8, _>(8).0, 8);
    assert_eq!(around::<u8, _>(9).0, 9);
    let stateful = with_state::<u32, _, _>(|| 0u32, 10);
    assert_eq!((stateful.factory)(), 0);
    assert_eq!(stateful.callback, 10);
}
