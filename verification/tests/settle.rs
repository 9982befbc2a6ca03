use cordis::fiber::Fiber;
use cordis::settle::{
    capture_attribution, enter_bracket, is_doomed, leave_nested_bracket, refuse_recursion, run_task_scope,
    run_task_wait_is_doomed, same_allocation, LifecycleOperation, SettleCtx,
};

const OPS: [LifecycleOperation; 7] = [
    LifecycleOperation::Ready,
    LifecycleOperation::WaitState,
    LifecycleOperation::Restart,
    LifecycleOperation::Update,
    LifecycleOperation::EraSwap,
    LifecycleOperation::Dispose,
    LifecycleOperation::RemovePlugins,
];
const MUTATORS: [LifecycleOperation; 5] = [
    LifecycleOperation::Restart,
    LifecycleOperation::Update,
    LifecycleOperation::EraSwap,
    LifecycleOperation::Dispose,
    LifecycleOperation::RemovePlugins,
];

fn fiber(id: u64) -> Fiber {
    Fiber::new(id, Vec::new())
}

fn refused(ctx: Option<&SettleCtx>, fiber: &Fiber, operation: LifecycleOperation) {
    let error = refuse_recursion(ctx, fiber, operation).unwrap_err();
    assert_eq!(error.operation(), operation);
    assert_eq!(error.fiber_id(), fiber.id);
}

#[test]
fn typed_refusal_table_is_exact_to_operation_and_allocation() {
    let a = fiber(1);
    let b = fiber(2);
    let c = fiber(3);
    for operation in OPS {
        refuse_recursion(None, &a, operation).unwrap();
    }

    let outer = enter_bracket(None, a.id);
    for operation in OPS {
        refused(Some(&outer), &a, operation);
        refuse_recursion(Some(&outer), &b, operation).unwrap();
    }

    let nested = enter_bracket(Some(outer), b.id);
    for operation in OPS {
        refused(Some(&nested), &a, operation);
        refused(Some(&nested), &b, operation);
        refuse_recursion(Some(&nested), &c, operation).unwrap();
    }

    let mut owner = fiber(1);
    let run = run_task_scope(owner.id);
    for operation in MUTATORS {
        refused(Some(&run), &owner, operation);
        refuse_recursion(Some(&run), &b, operation).unwrap();
    }
    for operation in [LifecycleOperation::Ready, LifecycleOperation::WaitState] {
        refuse_recursion(Some(&run), &owner, operation).unwrap();
    }
    owner.draining = true;
    for operation in [LifecycleOperation::Ready, LifecycleOperation::WaitState] {
        refused(Some(&run), &owner, operation);
    }
}

#[test]
fn attribution_survives_lifecycle_death_by_allocation_identity() {
    let mut a = fiber(9);
    a.alive = false;
    let ctx = enter_bracket(None, a.id);
    for operation in OPS {
        let error = refuse_recursion(Some(&ctx), &a, operation).unwrap_err();
        assert_eq!(error.operation(), operation);
        assert_eq!(error.fiber_id(), 9);
    }
}

#[test]
fn captured_attribution_transfers_exactly_without_leaking() {
    let a = fiber(1);
    let b = fiber(2);
    let inside = enter_bracket(None, a.id);
    let captured = capture_attribution(Some(&inside));
    refused(Some(&captured), &a, LifecycleOperation::EraSwap);
    refuse_recursion(Some(&captured), &b, LifecycleOperation::EraSwap).unwrap();
    refuse_recursion(None, &a, LifecycleOperation::EraSwap).unwrap();
    let fresh = capture_attribution(None);
    refuse_recursion(Some(&fresh), &a, LifecycleOperation::EraSwap).unwrap();
}

#[test]
fn cancelled_nested_bracket_pops_only_its_allocation() {
    let a = fiber(1);
    let b = fiber(2);
    let outer = enter_bracket(None, a.id);
    let mut nested = enter_bracket(Some(outer), b.id);
    refused(Some(&nested), &b, LifecycleOperation::Ready);
    leave_nested_bracket(&mut nested);
    refused(Some(&nested), &a, LifecycleOperation::Ready);
    refuse_recursion(Some(&nested), &b, LifecycleOperation::Ready).unwrap();
}

#[test]
fn scopes_start_clean_and_spawned_tasks_do_not_inherit_attribution() {
    let a = fiber(1);
    let run = run_task_scope(a.id);
    assert!(!run.is_settling(a.id));
    let unrelated = SettleCtx::empty();
    refuse_recursion(Some(&unrelated), &a, LifecycleOperation::Ready).unwrap();
}

#[test]
fn doom_helpers_match_the_table() {
    let mut f = fiber(4);
    assert!(same_allocation(4, 4));
    assert!(!same_allocation(4, 5));
    assert!(run_task_wait_is_doomed(&f, LifecycleOperation::Dispose));
    assert!(!run_task_wait_is_doomed(&f, LifecycleOperation::Ready));
    f.draining = true;
    assert!(run_task_wait_is_doomed(&f, LifecycleOperation::WaitState));
    assert!(!is_doomed(None, &f, LifecycleOperation::Dispose));
}
