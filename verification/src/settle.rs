//! Exact-allocation attribution for lifecycle-recursion refusal.
//!
//! A bracket records every Fiber whose apply/settle or teardown body is
//! running on the current task; a run scope records the Fiber generation that
//! owns a `Context::run` task. A lifecycle operation on a Fiber is refused when
//! it would wait on work of that same allocation from inside it.

use vstd::prelude::*;
use crate::fiber::{Fiber, FiberId};

verus! {

/// A lifecycle operation that may wait on a Fiber.
#[derive(Debug, Clone, Copy, PartialEq, Eq, Structural)]
pub enum LifecycleOperation {
    Ready,
    WaitState,
    Restart,
    Update,
    EraSwap,
    Dispose,
    RemovePlugins,
}

/// Whether `operation` only waits for a state (and so is doomed from inside a
/// run task only while a drain is joining it).
pub open spec fn is_wait(operation: LifecycleOperation) -> bool {
    operation == LifecycleOperation::Ready || operation == LifecycleOperation::WaitState
}

/// A refused self-wait: the operation and the Fiber it targeted.
#[derive(Debug, Clone, Copy, PartialEq, Eq, Structural)]
pub struct LifecycleRecursion {
    operation: LifecycleOperation,
    fiber_id: FiberId,
}

impl LifecycleRecursion {
    pub closed spec fn spec_operation(self) -> LifecycleOperation {
        self.operation
    }

    pub closed spec fn spec_fiber_id(self) -> FiberId {
        self.fiber_id
    }

    pub fn new(operation: LifecycleOperation, fiber_id: FiberId) -> (r: LifecycleRecursion)
        ensures
            r.spec_operation() == operation,
            r.spec_fiber_id() == fiber_id,
    {
        LifecycleRecursion { operation, fiber_id }
    }

    pub fn operation(&self) -> (o: LifecycleOperation)
        ensures
            o == self.spec_operation(),
    {
        self.operation
    }

    pub fn fiber_id(&self) -> (id: FiberId)
        ensures
            id == self.spec_fiber_id(),
    {
        self.fiber_id
    }
}

/// The attribution facts carried by one task: the stack of settling Fiber
/// allocations and the owner of the run task, if any.
pub struct SettleCtx {
    settling: Vec<FiberId>,
    run_owner: Option<FiberId>,
}

impl SettleCtx {
    pub closed spec fn spec_settling(&self) -> Seq<FiberId> {
        self.settling@
    }

    pub closed spec fn spec_run_owner(&self) -> Option<FiberId> {
        self.run_owner
    }

    /// Attribution that names no Fiber.
    pub fn empty() -> (c: SettleCtx)
        ensures
            c.spec_settling().len() == 0,
            c.spec_run_owner() is None,
    {
        SettleCtx { settling: Vec::new(), run_owner: None }
    }

    /// An exact copy of this attribution.
    pub fn duplicate(&self) -> (c: SettleCtx)
        ensures
            c.spec_settling() == self.spec_settling(),
            c.spec_run_owner() == self.spec_run_owner(),
    {
        let mut settling: Vec<FiberId> = Vec::new();
        let mut i: usize = 0;
        while i < self.settling.len()
            invariant
                i <= self.settling@.len(),
                settling@ == self.settling@.take(i as int),
            decreases self.settling@.len() - i,
        {
            settling.push(self.settling[i]);
            i = i + 1;
            proof {
                assert(settling@ =~= self.settling@.take(i as int));
            }
        }
        proof {
            assert(self.settling@.take(self.settling@.len() as int) =~= self.settling@);
        }
        SettleCtx { settling, run_owner: self.run_owner }
    }

    /// Whether `id` is one of the settling allocations.
    pub fn is_settling(&self, id: FiberId) -> (b: bool)
        ensures
            b == self.spec_settling().contains(id),
    {
        let mut i: usize = 0;
        while i < self.settling.len()
            invariant
                i <= self.settling@.len(),
                forall|k: int| 0 <= k < i ==> self.settling@[k] != id,
            decreases self.settling@.len() - i,
        {
            if self.settling[i] == id {
                assert(self.settling@[i as int] == id);
                return true;
            }
            i = i + 1;
        }
        false
    }
}

/// Whether two handles name the same Fiber allocation.
pub fn same_allocation(candidate: FiberId, target: FiberId) -> (b: bool)
    ensures
        b == (candidate == target),
{
    candidate == target
}

/// Whether a run-task owner waiting with `operation` on its own Fiber deadlocks.
pub open spec fn spec_run_task_wait_is_doomed(draining: bool, operation: LifecycleOperation) -> bool {
    if is_wait(operation) { draining } else { true }
}

pub fn run_task_wait_is_doomed(fiber: &Fiber, operation: LifecycleOperation) -> (b: bool)
    ensures
        b == spec_run_task_wait_is_doomed(fiber.draining, operation),
{
    match operation {
        LifecycleOperation::Ready | LifecycleOperation::WaitState => fiber.draining,
        LifecycleOperation::Restart
        | LifecycleOperation::Update
        | LifecycleOperation::EraSwap
        | LifecycleOperation::Dispose
        | LifecycleOperation::RemovePlugins => true,
    }
}

/// Whether `operation` on the Fiber `id` is doomed under the attribution facts
/// `settling` and `run_owner`.
pub open spec fn doomed_by(settling: Seq<FiberId>, run_owner: Option<FiberId>, id: FiberId, draining: bool, operation: LifecycleOperation) -> bool {
    settling.contains(id) || (run_owner == Some(id) && spec_run_task_wait_is_doomed(draining, operation))
}

/// Whether `operation` on the Fiber `id` from a task with attribution `ctx` is doomed.
pub open spec fn spec_is_doomed(ctx: Option<SettleCtx>, id: FiberId, draining: bool, operation: LifecycleOperation) -> bool {
    match ctx {
        None => false,
        Some(c) => doomed_by(c.spec_settling(), c.spec_run_owner(), id, draining, operation),
    }
}

/// Whether the operation is refused under the attribution `ctx`.
/// A task without attribution is never doomed.
pub fn is_doomed(ctx: Option<&SettleCtx>, fiber: &Fiber, operation: LifecycleOperation) -> (b: bool)
    ensures
        b == spec_is_doomed(match ctx { Some(c) => Some(*c), None => None }, fiber.id, fiber.draining, operation),
{
    match ctx {
        None => false,
        Some(c) => {
            let in_settle = c.is_settling(fiber.id);
            let owns_run_task = match c.run_owner {
                Some(owner) => same_allocation(owner, fiber.id),
                None => false,
            };
            in_settle || (owns_run_task && run_task_wait_is_doomed(fiber, operation))
        },
    }
}

/// Refuse a doomed lifecycle operation with a typed diagnostic.
pub fn refuse_recursion(ctx: Option<&SettleCtx>, fiber: &Fiber, operation: LifecycleOperation) -> (r: Result<(), LifecycleRecursion>)
    ensures
        match r {
            Ok(()) => !spec_is_doomed(match ctx { Some(c) => Some(*c), None => None }, fiber.id, fiber.draining, operation),
            Err(e) => spec_is_doomed(match ctx { Some(c) => Some(*c), None => None }, fiber.id, fiber.draining, operation)
                && e.spec_operation() == operation && e.spec_fiber_id() == fiber.id,
        },
{
    if is_doomed(ctx, fiber, operation) {
        Err(LifecycleRecursion::new(operation, fiber.id))
    } else {
        Ok(())
    }
}

/// Capture the caller's exact attribution before committed work changes task.
pub fn capture_attribution(ctx: Option<&SettleCtx>) -> (c: SettleCtx)
    ensures
        match ctx {
            Some(x) => c.spec_settling() == x.spec_settling() && c.spec_run_owner() == x.spec_run_owner(),
            None => c.spec_settling().len() == 0 && c.spec_run_owner() is None,
        },
{
    match ctx {
        Some(x) => x.duplicate(),
        None => SettleCtx::empty(),
    }
}

/// Attribute one apply/settle or teardown body to `fiber`: nested bodies
/// stack inside the current attribution, the outermost starts a fresh one.
pub fn enter_bracket(ctx: Option<SettleCtx>, fiber: FiberId) -> (c: SettleCtx)
    ensures
        match ctx {
            Some(x) => c.spec_settling() == x.spec_settling().push(fiber) && c.spec_run_owner() == x.spec_run_owner(),
            None => c.spec_settling() == seq![fiber] && c.spec_run_owner() is None,
        },
{
    match ctx {
        Some(x) => {
            let SettleCtx { settling, run_owner } = x;
            let mut settling = settling;
            settling.push(fiber);
            SettleCtx { settling, run_owner }
        },
        None => {
            let mut settling: Vec<FiberId> = Vec::new();
            settling.push(fiber);
            proof {
                assert(settling@ =~= seq![fiber]);
            }
            SettleCtx { settling, run_owner: None }
        },
    }
}

/// Leave a nested bracket (also on cancellation): pop only its own allocation.
pub fn leave_nested_bracket(ctx: &mut SettleCtx)
    ensures
        final(ctx).spec_settling() == (if old(ctx).spec_settling().len() > 0 {
            old(ctx).spec_settling().drop_last()
        } else {
            old(ctx).spec_settling()
        }),
        final(ctx).spec_run_owner() == old(ctx).spec_run_owner(),
{
    let _ = ctx.settling.pop();
    proof {
        if old(ctx).settling@.len() > 0 {
            assert(ctx.settling@ =~= old(ctx).settling@.drop_last());
        }
    }
}

/// The attribution of one generation-owned run task: only its owner.
pub fn run_task_scope(fiber: FiberId) -> (c: SettleCtx)
    ensures
        c.spec_settling().len() == 0,
        c.spec_run_owner() == Some(fiber),
{
    SettleCtx { settling: Vec::new(), run_owner: Some(fiber) }
}

} // verus!
