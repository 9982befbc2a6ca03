use cordis::fiber::Fiber;
use cordis::gated::{push_gated, Cleanup, GatedPublishError, NoPublish};

#[test]
fn closed_gate_refuses_before_publishing() {
    let mut fiber = Fiber::new(1, Vec::new());
    fiber.gate_open = false;
    let r = push_gated(&mut fiber, Cleanup::Effect { id: 1 }, &mut NoPublish);
    assert_eq!(r, Err(GatedPublishError::InactiveContext));
    assert!(fiber.disposables.remove(0).is_none());
}

#[test]
fn open_gate_commits_cleanup_in_order() {
    let mut fiber = Fiber::new(1, Vec::new());
    let t0 = push_gated(&mut fiber, Cleanup::Effect { id: 1 }, &mut NoPublish).unwrap();
    let t1 = push_gated(&mut fiber, Cleanup::Effect { id: 2 }, &mut NoPublish).unwrap();
    assert_eq!((t0, t1), (0, 1));
    assert!(matches!(fiber.disposables.remove(t1), Some(Cleanup::Effect { id: 2 })));
    assert!(fiber.disposables.remove(t1).is_none());
    assert!(matches!(fiber.disposables.remove(t0), Some(Cleanup::Effect { id: 1 })));
}
