use cordis::component::{apply_step, digest_matches, ApplyAction, ApplyEvent, ApplyPhase, ComponentApplyError};
use cordis::fiber::{Fiber, FiberState};
use cordis::gated::{push_gated, Cleanup, NoPublish};
use cordis::listener::ListenerOptions;
use cordis::runtime::{Context, Root};
use cordis::service::{EffectRegistrationError, ServicePublishError};
use cordis::store::ServiceLookupError;

const CONTRACT: u64 = 7;

fn name(s: &str) -> String {
    s.to_string()
}

#[test]
fn removed_slot_can_be_published_again() {
    let mut root: Root<u32> = Root::new(1);
    let a = root.spawn(Vec::new());
    let ctx = Context::new(a);
    let p = ctx.provide(&mut root, &name("svc"), CONTRACT, 1).unwrap();
    assert_eq!(p.remove(&mut root), Ok(()));
    assert_eq!(
        ctx.try_service(&root, &name("svc"), CONTRACT),
        Err(ServiceLookupError::Unavailable { service: name("svc") })
    );
    let q = ctx.provide(&mut root, &name("svc"), CONTRACT, 2).unwrap();
    assert_eq!(q.occurrence(), 1);
    root.fibers.set_state(a, FiberState::Active);
    assert_eq!(ctx.try_service(&root, &name("svc"), CONTRACT), Ok(&2));
}

#[test]
fn dead_generation_with_open_gate_is_refused() {
    let mut root: Root<u32> = Root::new(1);
    let a = root.spawn(Vec::new());
    assert!(root.fibers.set_flags(a, false, true, false));
    let ctx = Context::new(a);
    assert_eq!(
        ctx.provide(&mut root, &name("svc"), CONTRACT, 1).unwrap_err(),
        ServicePublishError::InactiveContext
    );
    assert_eq!(ctx.effect(&mut root, 3), Err(EffectRegistrationError::InactiveContext));
    assert!(ctx.register_listener(&mut root, &name("evt"), ListenerOptions::default()).is_err());
    assert!(root.services.slots_owned_by(a).is_empty());
}

#[test]
fn drain_runs_every_obligation_latest_first() {
    let mut root: Root<u32> = Root::new(1);
    let a = root.spawn(Vec::new());
    let ctx = Context::new(a);
    ctx.provide(&mut root, &name("x"), CONTRACT, 1).unwrap();
    let t1 = ctx.effect(&mut root, 100).unwrap();
    let listener = ctx.register_listener(&mut root, &name("evt"), ListenerOptions::default()).unwrap();
    ctx.provide(&mut root, &name("y"), CONTRACT, 2).unwrap();
    let t4 = ctx.effect(&mut root, 200).unwrap();
    let b = root.spawn(Vec::new());
    Context::new(b).provide(&mut root, &name("z"), CONTRACT, 3).unwrap();

    let effects = root.drain_fiber(a);
    assert_eq!(effects, vec![(t4, 200), (t1, 100)]);
    assert!(root.services.slots_owned_by(a).is_empty());
    assert_eq!(root.services.slots_owned_by(b).len(), 1);
    assert!(root.listeners.stream(&name("evt")).is_empty());
    assert!(!listener.remove(&mut root));
    assert_eq!(root.drain_fiber(a), Vec::new());
    assert_eq!(root.drain_fiber(99), Vec::new());
}

#[test]
fn drain_leaves_a_later_occurrence_in_place() {
    let mut root: Root<u32> = Root::new(1);
    let a = root.spawn(Vec::new());
    let first = Context::new(a).provide(&mut root, &name("svc"), CONTRACT, 1).unwrap();
    assert!(root.fibers.set_flags(a, false, false, true));
    let b = root.spawn(Vec::new());
    let ctx_b = Context::new(b);
    let second = ctx_b.provide(&mut root, &name("svc"), CONTRACT, 2).unwrap();
    assert_ne!(first.occurrence(), second.occurrence());
    assert_eq!(root.drain_fiber(a), Vec::new());
    assert_eq!(root.services.slots_owned_by(b), vec![(name("svc"), second.realm())]);
    root.fibers.set_state(b, FiberState::Active);
    assert_eq!(ctx_b.try_service(&root, &name("svc"), CONTRACT), Ok(&2));
}

#[test]
fn cleanup_of_a_stale_withdrawal_keeps_the_row() {
    let mut root: Root<u32> = Root::new(1);
    let a = root.spawn(Vec::new());
    let p = Context::new(a).provide(&mut root, &name("svc"), CONTRACT, 1).unwrap();
    let stale = Cleanup::WithdrawService { realm: p.realm(), service: name("svc"), occurrence: p.occurrence() + 1 };
    assert_eq!(root.run_cleanup(stale), None);
    assert_eq!(root.services.slots_owned_by(a).len(), 1);
    let exact = Cleanup::WithdrawService { realm: p.realm(), service: name("svc"), occurrence: p.occurrence() };
    assert_eq!(root.run_cleanup(exact), None);
    assert!(root.services.slots_owned_by(a).is_empty());
    assert_eq!(root.run_cleanup(Cleanup::Effect { id: 5 }), Some(5));
}

#[test]
fn journal_pops_latest_first() {
    let mut fiber = Fiber::new(1, Vec::new());
    push_gated(&mut fiber, Cleanup::Effect { id: 1 }, &mut NoPublish).unwrap();
    push_gated(&mut fiber, Cleanup::Effect { id: 2 }, &mut NoPublish).unwrap();
    assert!(matches!(fiber.disposables.pop_latest(), Some((1, Cleanup::Effect { id: 2 }))));
    assert!(matches!(fiber.disposables.pop_latest(), Some((0, Cleanup::Effect { id: 1 }))));
    assert!(fiber.disposables.pop_latest().is_none());
    let t = push_gated(&mut fiber, Cleanup::Effect { id: 3 }, &mut NoPublish).unwrap();
    assert_eq!(t, 2);
}

#[test]
fn digest_comparison_is_bytewise() {
    let a = [7u8; 32];
    let mut b = a;
    assert!(digest_matches(&a, &b));
    b[0] = 8;
    assert!(!digest_matches(&a, &b));
}

type Step = (ApplyPhase, ApplyAction<&'static str, &'static str>);

#[test]
fn apply_registers_then_activates() {
    let s: Step = apply_step(ApplyPhase::Instantiating, ApplyEvent::Instantiated);
    assert_eq!(s, (ApplyPhase::Registering, ApplyAction::RegisterCleanup));
    let s: Step = apply_step(ApplyPhase::Registering, ApplyEvent::CleanupRegistered);
    assert_eq!(s, (ApplyPhase::Activating, ApplyAction::Activate));
    let s: Step = apply_step(ApplyPhase::Activating, ApplyEvent::Activated);
    assert_eq!(s, (ApplyPhase::Finished, ApplyAction::Finish(Ok(()))));
}

#[test]
fn apply_refused_cleanup_disposes_once_then_reports() {
    let e = EffectRegistrationError::InactiveContext;
    let (phase, action): Step = apply_step(ApplyPhase::Registering, ApplyEvent::CleanupRefused(e));
    assert_eq!(action, ApplyAction::Dispose);
    let s: Step = apply_step(phase, ApplyEvent::Disposed);
    assert_eq!(s, (ApplyPhase::Finished, ApplyAction::Finish(Err(ComponentApplyError::CleanupRegistration(e)))));
}

#[test]
fn apply_failures_are_reported_as_they_came() {
    let s: Step = apply_step(ApplyPhase::Instantiating, ApplyEvent::InstantiateFailed("bad"));
    assert_eq!(s, (ApplyPhase::Finished, ApplyAction::Finish(Err(ComponentApplyError::Instantiate("bad")))));
    let s: Step = apply_step(ApplyPhase::Activating, ApplyEvent::ActivateFailed("trap"));
    assert_eq!(s, (ApplyPhase::Finished, ApplyAction::Finish(Err(ComponentApplyError::Activate("trap")))));
    let s: Step = apply_step(ApplyPhase::Activating, ApplyEvent::Disposed);
    assert_eq!(s, (ApplyPhase::Activating, ApplyAction::Wait));
}

#[test]
fn closed_generation_drains_silently() {
    let mut root: Root<u32> = Root::new(1);
    let a = root.spawn(Vec::new());
    assert!(root.fibers.set_state(a, FiberState::Active));
    let ctx = Context::new(a);
    ctx.provide(&mut root, &name("svc"), CONTRACT, 1).unwrap();
    assert_eq!(root.observations.len(), 1);
    assert!(root.fibers.set_state(a, FiberState::Unloading));
    assert_eq!(
        ctx.try_service(&root, &name("svc"), CONTRACT),
        Err(ServiceLookupError::Unavailable { service: name("svc") })
    );
    assert_eq!(root.drain_fiber(a), Vec::new());
    assert!(root.services.slots_owned_by(a).is_empty());
    assert_eq!(root.observations.len(), 1);
}

#[test]
fn binding_outlives_every_publication() {
    let mut root: Root<u32> = Root::new(1);
    let a = root.spawn(Vec::new());
    let ctx = Context::new(a);
    let p = ctx.provide(&mut root, &name("svc"), CONTRACT, 1).unwrap();
    assert_eq!(p.remove(&mut root), Ok(()));
    root.drain_fiber(a);
    assert_eq!(
        ctx.provide(&mut root, &name("svc"), CONTRACT + 1, 2).unwrap_err(),
        ServicePublishError::ContractMismatch { service: name("svc") }
    );
    assert_eq!(
        ctx.try_service(&root, &name("svc"), CONTRACT + 1),
        Err(ServiceLookupError::ContractMismatch { service: name("svc") })
    );
}
