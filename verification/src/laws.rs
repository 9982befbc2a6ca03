//! Laws of the bookkeeping that span operations or hold of every input.

use vstd::prelude::*;
use crate::fiber::{Fiber, FiberId};
use crate::fiber::FiberState;
use crate::deps::{EdgeKey, dedup, resident_only, pruned_after, collected, edge_out, without, remove_edges, add_edges};
use crate::runtime::{Context, Root, ServiceRealm, scan, spec_affected};
use crate::service::{ServicePublication, ServicePublishError, provide_outcome, set_outcome, remove_outcome, cleanup_outcome,
    drain_outcome, drained_journal, withdraws, journal_withdraws};
use crate::gated::Cleanup;
use crate::store::{ServiceSlot, ServiceControlError, SlotKey, spec_mutation_state};
use crate::listener::{ListenerEntry, stream_of};
use crate::settle::{LifecycleOperation, SettleCtx, doomed_by, is_wait, spec_is_doomed};
use crate::deadline::{WaitStep, spec_wait_step};
use crate::component::{ApplyPhase, ApplyEvent, ApplyAction, ComponentApplyError, spec_apply_step};
use crate::service::EffectRegistrationError;

verus! {

/// Row `e` of a projection lists `x`.
pub open spec fn row_has(m: Map<EdgeKey, Seq<FiberId>>, e: EdgeKey, x: FiberId) -> bool {
    m.contains_key(e) && m[e].contains(x)
}

proof fn lemma_concat_contains(a: Seq<FiberId>, b: Seq<FiberId>, x: FiberId)
    ensures
        (a + b).contains(x) <==> a.contains(x) || b.contains(x),
{
    if (a + b).contains(x) {
        let i = choose|i: int| 0 <= i < (a + b).len() && (a + b)[i] == x;
        if i < a.len() {
            assert(a[i] == x);
        } else {
            assert(b[i - a.len()] == x);
        }
    }
    if a.contains(x) {
        let i = choose|i: int| 0 <= i < a.len() && a[i] == x;
        assert((a + b)[i] == x);
    }
    if b.contains(x) {
        let i = choose|i: int| 0 <= i < b.len() && b[i] == x;
        assert((a + b)[a.len() + i] == x);
    }
}

proof fn lemma_push_contains(a: Seq<FiberId>, y: FiberId, x: FiberId)
    ensures
        a.push(y).contains(x) <==> a.contains(x) || x == y,
{
    if a.push(y).contains(x) {
        let i = choose|i: int| 0 <= i < a.push(y).len() && a.push(y)[i] == x;
        if i < a.len() {
            assert(a[i] == x);
        }
    }
    if a.contains(x) {
        let i = choose|i: int| 0 <= i < a.len() && a[i] == x;
        assert(a.push(y)[i] == x);
    }
    if x == y {
        assert(a.push(y)[a.len() as int] == x);
    }
}

/// Dropping repetitions keeps every identity and leaves none twice.
pub proof fn lemma_dedup(s: Seq<FiberId>)
    ensures
        forall|x: FiberId| #[trigger] dedup(s).contains(x) <==> s.contains(x),
        forall|i: int, j: int| 0 <= i < dedup(s).len() && 0 <= j < dedup(s).len() && i != j
            ==> dedup(s)[i] != dedup(s)[j],
    decreases s.len(),
{
    if s.len() > 0 {
        let t = s.drop_last();
        lemma_dedup(t);
        let d = dedup(t);
        assert forall|x: FiberId| dedup(s).contains(x) <==> s.contains(x) by {
            lemma_push_contains(t, s.last(), x);
            assert(s == t.push(s.last()));
            lemma_push_contains(d, s.last(), x);
        }
        if !d.contains(s.last()) {
            assert forall|i: int, j: int| 0 <= i < dedup(s).len() && 0 <= j < dedup(s).len() && i != j
                implies dedup(s)[i] != dedup(s)[j] by {
                if i == d.len() {
                    assert(dedup(s)[j] == d[j]);
                } else if j == d.len() {
                    assert(dedup(s)[i] == d[i]);
                }
            }
        }
    }
}

/// The resident entries of a row are exactly its resident identities.
pub proof fn lemma_resident_only(s: Seq<FiberId>, fibers: Map<FiberId, Fiber>)
    ensures
        forall|x: FiberId| #[trigger] resident_only(s, fibers).contains(x) <==> s.contains(x) && fibers.contains_key(x),
    decreases s.len(),
{
    if s.len() > 0 {
        let t = s.drop_last();
        lemma_resident_only(t, fibers);
        assert(s == t.push(s.last()));
        assert forall|x: FiberId| resident_only(s, fibers).contains(x) <==> s.contains(x) && fibers.contains_key(x) by {
            lemma_push_contains(t, s.last(), x);
            lemma_push_contains(resident_only(t, fibers), s.last(), x);
        }
    }
}

/// Reading requested rows drops exactly their non-resident entries.
pub proof fn lemma_pruned_after(m: Map<EdgeKey, Seq<FiberId>>, es: Seq<EdgeKey>, fibers: Map<FiberId, Fiber>)
    ensures
        forall|e: EdgeKey, x: FiberId| #[trigger] row_has(pruned_after(m, es, fibers), e, x)
            <==> row_has(m, e, x) && (es.contains(e) ==> fibers.contains_key(x)),
        forall|x: FiberId| #[trigger] collected(m, es, fibers).contains(x)
            <==> fibers.contains_key(x) && exists|i: int| 0 <= i < es.len() && row_has(m, #[trigger] es[i], x),
    decreases es.len(),
{
    if es.len() > 0 {
        let es0 = es.drop_last();
        let e0 = es.last();
        lemma_pruned_after(m, es0, fibers);
        let p0 = pruned_after(m, es0, fibers);
        if p0.contains_key(e0) {
            lemma_resident_only(p0[e0], fibers);
        }
        assert forall|e: EdgeKey| #[trigger] es.contains(e) <==> es0.contains(e) || e == e0 by {
            if es.contains(e) {
                let i = choose|i: int| 0 <= i < es.len() && es[i] == e;
                if i < es0.len() {
                    assert(es0[i] == e);
                }
            }
            if es0.contains(e) {
                let i = choose|i: int| 0 <= i < es0.len() && es0[i] == e;
                assert(es[i] == e);
            }
            if e == e0 {
                assert(es[es.len() - 1] == e);
            }
        }
        assert forall|e: EdgeKey, x: FiberId| row_has(pruned_after(m, es, fibers), e, x)
            <==> row_has(m, e, x) && (es.contains(e) ==> fibers.contains_key(x)) by {
            let p = pruned_after(m, es, fibers);
            assert(p == crate::deps::edge_pruned(p0, e0, fibers));
            assert(row_has(p0, e, x) <==> row_has(m, e, x) && (es0.contains(e) ==> fibers.contains_key(x)));
            assert(es.contains(e) <==> es0.contains(e) || e == e0);
            if e == e0 {
                if p0.contains_key(e0) {
                    let l = resident_only(p0[e0], fibers);
                    assert(l.contains(x) <==> p0[e0].contains(x) && fibers.contains_key(x));
                    if l.len() == 0 {
                        assert(!p.contains_key(e0));
                    } else {
                        assert(p[e0] == l);
                    }
                } else {
                    assert(!p.contains_key(e0));
                }
            } else {
                assert(p.contains_key(e) == p0.contains_key(e));
                if p.contains_key(e) {
                    assert(p[e] == p0[e]);
                }
            }
        }
        assert forall|x: FiberId| collected(m, es, fibers).contains(x)
            <==> fibers.contains_key(x) && exists|i: int| 0 <= i < es.len() && row_has(m, #[trigger] es[i], x) by {
            let c0 = collected(m, es0, fibers);
            let o = edge_out(p0, e0, fibers);
            assert(collected(m, es, fibers) == c0 + o);
            lemma_concat_contains(c0, o, x);
            assert(c0.contains(x) <==> fibers.contains_key(x) && exists|i: int| 0 <= i < es0.len() && row_has(m, #[trigger] es0[i], x));
            assert(row_has(p0, e0, x) <==> row_has(m, e0, x) && (es0.contains(e0) ==> fibers.contains_key(x)));
            if p0.contains_key(e0) {
                assert(o == resident_only(p0[e0], fibers));
                assert(o.contains(x) <==> p0[e0].contains(x) && fibers.contains_key(x));
            } else {
                assert(o.len() == 0);
                assert(!o.contains(x));
            }
            assert(o.contains(x) <==> row_has(m, e0, x) && fibers.contains_key(x));
            if exists|i: int| 0 <= i < es.len() && row_has(m, #[trigger] es[i], x) {
                let i = choose|i: int| 0 <= i < es.len() && row_has(m, #[trigger] es[i], x);
                if i < es0.len() {
                    assert(es0[i] == es[i]);
                } else {
                    assert(es[i] == e0);
                }
            }
            if exists|i: int| 0 <= i < es0.len() && row_has(m, #[trigger] es0[i], x) {
                let i = choose|i: int| 0 <= i < es0.len() && row_has(m, #[trigger] es0[i], x);
                assert(es[i] == es0[i]);
            }
            if o.contains(x) {
                assert(row_has(m, es[es.len() - 1], x));
            }
        }
    }
}

/// The dependents found for requested edges are exactly the resident Fibers
/// listed under one of them, each once.
pub proof fn law_dependents_exact_and_unique(m: Map<EdgeKey, Seq<FiberId>>, es: Seq<EdgeKey>, fibers: Map<FiberId, Fiber>)
    ensures
        forall|x: FiberId| dedup(collected(m, es, fibers)).contains(x)
            <==> fibers.contains_key(x) && exists|i: int| 0 <= i < es.len() && row_has(m, #[trigger] es[i], x),
        forall|i: int, j: int| 0 <= i < dedup(collected(m, es, fibers)).len() && 0 <= j < dedup(collected(m, es, fibers)).len() && i != j
            ==> dedup(collected(m, es, fibers))[i] != dedup(collected(m, es, fibers))[j],
{
    lemma_pruned_after(m, es, fibers);
    lemma_dedup(collected(m, es, fibers));
    assert forall|x: FiberId| dedup(collected(m, es, fibers)).contains(x)
        <==> fibers.contains_key(x) && exists|i: int| 0 <= i < es.len() && row_has(m, #[trigger] es[i], x) by {
        assert(dedup(collected(m, es, fibers)).contains(x) <==> collected(m, es, fibers).contains(x));
        assert(collected(m, es, fibers).contains(x)
            <==> fibers.contains_key(x) && exists|i: int| 0 <= i < es.len() && row_has(m, #[trigger] es[i], x));
    }
}

/// Reading requested rows prunes every non-resident entry from them and
/// leaves every other row as it was.
pub proof fn law_reading_prunes_dead_entries(m: Map<EdgeKey, Seq<FiberId>>, es: Seq<EdgeKey>, fibers: Map<FiberId, Fiber>)
    ensures
        forall|e: EdgeKey, x: FiberId| es.contains(e) && #[trigger] row_has(pruned_after(m, es, fibers), e, x) ==> fibers.contains_key(x),
        forall|e: EdgeKey, x: FiberId| !es.contains(e) ==> (#[trigger] row_has(pruned_after(m, es, fibers), e, x) <==> row_has(m, e, x)),
{
    lemma_pruned_after(m, es, fibers);
    assert forall|e: EdgeKey, x: FiberId| es.contains(e) && #[trigger] row_has(pruned_after(m, es, fibers), e, x)
        implies fibers.contains_key(x) by {
        assert(row_has(m, e, x) && (es.contains(e) ==> fibers.contains_key(x)));
    }
}


/// A publication from an alive Active generation is what a lookup of its
/// exact slot then reads: visible, with the published value and contract.
pub proof fn law_read_after_publish<V>(
    pre: Root<V>,
    post: Root<V>,
    ctx: Context,
    service: String,
    contract: u64,
    value: V,
    p: ServicePublication,
)
    requires
        provide_outcome(pre, post, ctx, service, contract, value, Ok(p)),
        pre.fibers@.contains_key(ctx.fiber),
        pre.fibers@[ctx.fiber].alive,
        pre.fibers@[ctx.fiber].state == FiberState::Active,
    ensures
        ({
            let k = (ctx.spec_isolate_key(service@), service@);
            &&& post.services.spec_visible_at(post.fibers@, k)
            &&& post.services.slots()[k].value == value
            &&& post.services.slots()[k].occurrence == p.spec_occurrence()
            &&& post.services.contracts().contains_key(service@)
            &&& post.services.contracts()[service@] == contract
        }),
{
}

/// A publication from a Loading generation occupies its slot but is not
/// visible, and announces nothing.
pub proof fn law_loading_publication_is_invisible<V>(
    pre: Root<V>,
    post: Root<V>,
    ctx: Context,
    service: String,
    contract: u64,
    value: V,
    p: ServicePublication,
)
    requires
        provide_outcome(pre, post, ctx, service, contract, value, Ok(p)),
        pre.fibers@.contains_key(ctx.fiber),
        pre.fibers@[ctx.fiber].alive,
        pre.fibers@[ctx.fiber].state == FiberState::Loading,
    ensures
        ({
            let k = (ctx.spec_isolate_key(service@), service@);
            &&& post.services.occupant_occupies(post.fibers@, k)
            &&& !post.services.spec_visible_at(post.fibers@, k)
            &&& post.observations@ == pre.observations@
            &&& post.deps@ == pre.deps@
        }),
{
}

/// While the owner of an exact slot's publication is alive, a second
/// publication of the same contract into that slot is refused as a duplicate.
pub proof fn law_second_publication_is_refused<V>(
    pre: Root<V>,
    mid: Root<V>,
    post: Root<V>,
    ctx1: Context,
    ctx2: Context,
    s1: String,
    s2: String,
    contract: u64,
    v1: V,
    v2: V,
    p1: ServicePublication,
    r2: Result<ServicePublication, ServicePublishError>,
)
    requires
        provide_outcome(pre, mid, ctx1, s1, contract, v1, Ok(p1)),
        pre.fibers@.contains_key(ctx1.fiber),
        pre.fibers@[ctx1.fiber].alive,
        provide_outcome(mid, post, ctx2, s2, contract, v2, r2),
        s2@ == s1@,
        ctx2.spec_isolate_key(s1@) == ctx1.spec_isolate_key(s1@),
        mid.fibers@.contains_key(ctx2.fiber),
        mid.fibers@[ctx2.fiber].admits(),
    ensures
        r2 == Err::<ServicePublication, ServicePublishError>(ServicePublishError::DuplicatePublication { service: s2 }),
{
    let k = (ctx1.spec_isolate_key(s1@), s1@);
    assert(mid.services.slots().contains_key(k));
    assert(mid.services.slots()[k].owner == ctx1.fiber);
    if ctx2.fiber != ctx1.fiber {
        assert(mid.fibers@.contains_key(ctx1.fiber));
    }
    assert(mid.fibers@[ctx1.fiber].alive);
    assert(mid.services.occupant_occupies(mid.fibers@, k));
}

/// A Service name binds one contract for the Runtime's lifetime: publishing
/// never rebinds or unbinds a name.
pub proof fn law_contract_binding_is_stable<V>(
    pre: Root<V>,
    post: Root<V>,
    ctx: Context,
    service: String,
    contract: u64,
    value: V,
    r: Result<ServicePublication, ServicePublishError>,
)
    requires
        provide_outcome(pre, post, ctx, service, contract, value, r),
    ensures
        forall|n: Seq<char>| #[trigger] pre.services.contracts().contains_key(n) ==>
            post.services.contracts().contains_key(n) && post.services.contracts()[n] == pre.services.contracts()[n],
{
}

/// Every publication receives an occurrence identity no current slot carries,
/// so no earlier capability or cleanup can name it.
pub proof fn law_fresh_occurrence<V>(
    pre: Root<V>,
    post: Root<V>,
    ctx: Context,
    service: String,
    contract: u64,
    value: V,
    p: ServicePublication,
)
    requires
        pre.wf(),
        provide_outcome(pre, post, ctx, service, contract, value, Ok(p)),
    ensures
        forall|k| #[trigger] pre.services.slots().contains_key(k) ==> pre.services.slots()[k].occurrence != p.spec_occurrence(),
{
}

/// A successful set replaces only the payload: the occurrence, owner and
/// contract stay, visibility does not change, and the next read sees the value.
pub proof fn law_read_after_set<V>(pre: Root<V>, post: Root<V>, p: ServicePublication, value: V)
    requires
        set_outcome(pre, post, p, value, Ok(())),
    ensures
        ({
            let k = (p.spec_realm(), p.spec_service()@);
            &&& post.services.slots().contains_key(k)
            &&& post.services.slots()[k].value == value
            &&& post.services.slots()[k].occurrence == p.spec_occurrence()
            &&& post.services.slots()[k].owner == pre.services.slots()[k].owner
            &&& post.services.slots()[k].contract == pre.services.slots()[k].contract
            &&& post.services.spec_visible_at(post.fibers@, k) == pre.services.spec_visible_at(pre.fibers@, k)
            &&& post.observations == pre.observations
        }),
{
}

/// A capability whose occurrence is no longer current changes nothing.
pub proof fn law_stale_capability_is_inert<V>(pre: Root<V>, post: Root<V>, p: ServicePublication, value: V, r: Result<(), ServiceControlError>)
    requires
        set_outcome(pre, post, p, value, r),
        !pre.services.current_is((p.spec_realm(), p.spec_service()@), p.spec_occurrence()),
    ensures
        r == Err::<(), ServiceControlError>(ServiceControlError::StalePublication { service: p.spec_service() }),
        post.services.slots() == pre.services.slots(),
{
}

/// After a successful removal the exact slot is empty: a lookup finds nothing.
pub proof fn law_removed_publication_is_unavailable<V>(pre: Root<V>, post: Root<V>, p: ServicePublication)
    requires
        remove_outcome(pre, post, p, Ok(())),
    ensures
        !post.services.slots().contains_key((p.spec_realm(), p.spec_service()@)),
        !post.services.spec_visible_at(post.fibers@, (p.spec_realm(), p.spec_service()@)),
{
}

/// A prepended registration is the first of its stream.
pub proof fn law_prepend_is_first(s: Seq<ListenerEntry>, e: ListenerEntry)
    ensures
        stream_of(seq![e] + s, e.event@).len() > 0,
        stream_of(seq![e] + s, e.event@)[0] == e.id,
    decreases s.len(),
{
    if s.len() == 0 {
        assert((seq![e] + s).drop_last() =~= Seq::<ListenerEntry>::empty());
        assert(stream_of(Seq::<ListenerEntry>::empty(), e.event@) =~= Seq::<u64>::empty());
    } else {
        law_prepend_is_first(s.drop_last(), e);
        assert((seq![e] + s).drop_last() =~= seq![e] + s.drop_last());
    }
}

/// An appended registration is the last of its stream.
pub proof fn law_append_is_last(s: Seq<ListenerEntry>, e: ListenerEntry)
    ensures
        stream_of(s.push(e), e.event@).len() > 0,
        stream_of(s.push(e), e.event@).last() == e.id,
{
    assert(s.push(e).drop_last() =~= s);
}

/// Inside a bracket of a Fiber, every lifecycle operation on that allocation
/// is refused, whatever surrounds the bracket.
pub proof fn law_bracket_refuses_its_allocation(settling: Seq<FiberId>, run_owner: Option<FiberId>, id: FiberId, draining: bool, op: LifecycleOperation)
    ensures
        doomed_by(settling.push(id), run_owner, id, draining, op),
{
    assert(settling.push(id)[settling.len() as int] == id);
}

/// An allocation that is neither settling nor the run owner is never refused.
pub proof fn law_other_allocations_proceed(settling: Seq<FiberId>, run_owner: Option<FiberId>, id: FiberId, draining: bool, op: LifecycleOperation)
    requires
        !settling.contains(id),
        run_owner != Some(id),
    ensures
        !doomed_by(settling, run_owner, id, draining, op),
{
}

/// From its own run task a Fiber refuses every mutator, and refuses waiting
/// for a state only while a drain is joining its run task.
pub proof fn law_run_task_refusal(id: FiberId, draining: bool, op: LifecycleOperation)
    ensures
        doomed_by(Seq::empty(), Some(id), id, draining, op) == (!is_wait(op) || draining),
{
}

/// A task without attribution refuses nothing.
pub proof fn law_unattributed_task_refuses_nothing(id: FiberId, draining: bool, op: LifecycleOperation)
    ensures
        !spec_is_doomed(None, id, draining, op),
{
}

/// Leaving a nested bracket pops exactly the allocation it pushed.
pub proof fn law_nested_bracket_pops_its_allocation(settling: Seq<FiberId>, id: FiberId)
    ensures
        settling.push(id).drop_last() == settling,
{
    assert(settling.push(id).drop_last() =~= settling);
}

/// The watchdog worker parks for exactly the remaining deadline, never a
/// shorter slice, and reports a timeout only when not cancelled.
pub proof fn law_watchdog_parks_for_remaining(cancelled: bool, elapsed: u64, timeout: u64)
    ensures
        spec_wait_step(cancelled, elapsed, timeout) matches WaitStep::Park { remaining_nanos }
            ==> !cancelled && elapsed + remaining_nanos == timeout,
        spec_wait_step(cancelled, elapsed, timeout) == WaitStep::TimedOut ==> !cancelled && elapsed >= timeout,
        cancelled ==> spec_wait_step(cancelled, elapsed, timeout) == WaitStep::Cancelled,
{
}


proof fn lemma_without_absent(s: Seq<FiberId>, id: FiberId)
    requires
        !s.contains(id),
    ensures
        without(s, id) == s,
    decreases s.len(),
{
    if s.len() > 0 {
        assert(!s.drop_last().contains(id)) by {
            if s.drop_last().contains(id) {
                let i = choose|i: int| 0 <= i < s.drop_last().len() && s.drop_last()[i] == id;
                assert(s[i] == id);
            }
        }
        lemma_without_absent(s.drop_last(), id);
        assert(s.last() != id) by {
            assert(s[s.len() - 1] == s.last());
        }
        assert(s.drop_last().push(s.last()) =~= s);
    }
}

/// Unregistering a Fiber the projection does not list is a no-op.
pub proof fn law_unregister_unknown_is_noop(m: Map<EdgeKey, Seq<FiberId>>, es: Seq<EdgeKey>, id: FiberId)
    requires
        forall|e: EdgeKey| #[trigger] m.contains_key(e) ==> !m[e].contains(id) && m[e].len() > 0,
    ensures
        remove_edges(m, es, id) == m,
    decreases es.len(),
{
    if es.len() > 0 {
        law_unregister_unknown_is_noop(m, es.drop_last(), id);
        let e = es.last();
        if m.contains_key(e) {
            lemma_without_absent(m[e], id);
            assert(m.insert(e, m[e]) =~= m);
        }
    }
}

/// Realms allocated by different Runtimes never compare equal.
pub proof fn law_foreign_realms_differ(a: ServiceRealm, b: ServiceRealm)
    requires
        a.spec_membership() != b.spec_membership(),
    ensures
        a != b,
{
}


proof fn lemma_without_drops(s: Seq<FiberId>, id: FiberId)
    ensures
        !without(s, id).contains(id),
        forall|x: FiberId| x != id && #[trigger] s.contains(x) ==> without(s, id).contains(x),
    decreases s.len(),
{
    if s.len() > 0 {
        let t = s.drop_last();
        lemma_without_drops(t, id);
        assert(s == t.push(s.last()));
        lemma_push_contains(without(t, id), s.last(), id);
        assert forall|x: FiberId| x != id && #[trigger] s.contains(x) implies without(s, id).contains(x) by {
            lemma_push_contains(t, s.last(), x);
            lemma_push_contains(without(t, id), s.last(), x);
        }
    }
}

/// After unregistering, no row of an edge the Fiber declared lists it; rows of
/// other edges are untouched.
pub proof fn law_unregistered_fiber_is_not_listed(m: Map<EdgeKey, Seq<FiberId>>, es: Seq<EdgeKey>, id: FiberId)
    ensures
        forall|i: int| 0 <= i < es.len() ==> !row_has(remove_edges(m, es, id), #[trigger] es[i], id),
        forall|e: EdgeKey| !es.contains(e) ==> #[trigger] remove_edges(m, es, id).contains_key(e) == m.contains_key(e)
            && (m.contains_key(e) ==> remove_edges(m, es, id)[e] == m[e]),
    decreases es.len(),
{
    if es.len() > 0 {
        let es0 = es.drop_last();
        let e0 = es.last();
        law_unregistered_fiber_is_not_listed(m, es0, id);
        let m1 = remove_edges(m, es0, id);
        if m1.contains_key(e0) {
            lemma_without_drops(m1[e0], id);
        }
        assert forall|i: int| 0 <= i < es.len() implies !row_has(remove_edges(m, es, id), #[trigger] es[i], id) by {
            if i < es0.len() {
                assert(es0[i] == es[i]);
                assert(!row_has(m1, es0[i], id));
                if es[i] != e0 {
                    assert(remove_edges(m, es, id).contains_key(es[i]) == m1.contains_key(es[i]));
                }
            }
        }
        assert forall|e: EdgeKey| !es.contains(e) implies #[trigger] remove_edges(m, es, id).contains_key(e) == m.contains_key(e)
            && (m.contains_key(e) ==> remove_edges(m, es, id)[e] == m[e]) by {
            assert(!es0.contains(e)) by {
                if es0.contains(e) {
                    let i = choose|i: int| 0 <= i < es0.len() && es0[i] == e;
                    assert(es[i] == e);
                }
            }
            assert(e != e0) by {
                assert(es[es.len() - 1] == e0);
            }
        }
    }
}

/// After a Fiber registers, the row of every edge it declared lists it, and
/// every row keeps the identities it listed.
pub proof fn law_registered_fiber_is_listed(m: Map<EdgeKey, Seq<FiberId>>, es: Seq<EdgeKey>, id: FiberId)
    ensures
        forall|i: int| 0 <= i < es.len() ==> row_has(add_edges(m, es, id), #[trigger] es[i], id),
        forall|e: EdgeKey, x: FiberId| #[trigger] row_has(m, e, x) ==> row_has(add_edges(m, es, id), e, x),
    decreases es.len(),
{
    if es.len() > 0 {
        let es0 = es.drop_last();
        let e0 = es.last();
        law_registered_fiber_is_listed(m, es0, id);
        let m1 = add_edges(m, es0, id);
        let l = if m1.contains_key(e0) { m1[e0] } else { Seq::<FiberId>::empty() };
        assert forall|x: FiberId| #[trigger] l.contains(x) implies l.push(id).contains(x) by {
            lemma_push_contains(l, id, x);
        }
        lemma_push_contains(l, id, id);
        assert forall|i: int| 0 <= i < es.len() implies row_has(add_edges(m, es, id), #[trigger] es[i], id) by {
            if i < es0.len() {
                assert(es0[i] == es[i]);
                assert(row_has(m1, es0[i], id));
                if es[i] == e0 {
                    lemma_push_contains(m1[e0], id, id);
                }
            }
        }
        assert forall|e: EdgeKey, x: FiberId| #[trigger] row_has(m, e, x) implies row_has(add_edges(m, es, id), e, x) by {
            assert(row_has(m1, e, x));
            if e == e0 {
                lemma_push_contains(m1[e0], id, x);
            }
        }
    }
}


/// A successful publication commits, in its owner's journal under the
/// capability's cleanup token, the withdrawal of exactly its own occurrence.
pub proof fn law_publication_commits_exact_withdrawal<V>(
    pre: Root<V>,
    post: Root<V>,
    ctx: Context,
    service: String,
    contract: u64,
    value: V,
    p: ServicePublication,
)
    requires
        provide_outcome(pre, post, ctx, service, contract, value, Ok(p)),
    ensures
        p.spec_owner() == ctx.fiber,
        post.fibers@.contains_key(p.spec_owner()),
        post.fibers@[p.spec_owner()].disposables@.contains_key(p.spec_cleanup()),
        withdraws(post.fibers@[p.spec_owner()].disposables@[p.spec_cleanup()], (p.spec_realm(), p.spec_service()@), p.spec_occurrence()),
{
}

/// Draining a generation removes a slot's row only while the occurrence its
/// withdrawal names is still current there; a row whose occurrence no
/// obligation of that generation names is left exactly as it was.
pub proof fn law_drain_withdraws_only_current<V>(
    pre: Root<V>,
    post: Root<V>,
    fid: FiberId,
    r: Seq<(u64, u64)>,
    t: u64,
    k: SlotKey,
    occurrence: u64,
)
    requires
        drain_outcome(pre, post, fid, r),
        pre.fibers@.contains_key(fid),
        pre.fibers@[fid].disposables@.contains_key(t),
        withdraws(pre.fibers@[fid].disposables@[t], k, occurrence),
    ensures
        pre.services.current_is(k, occurrence) ==> !post.services.slots().contains_key(k),
        pre.services.slots().contains_key(k) && !journal_withdraws(pre.fibers@[fid].disposables@, k, pre.services.slots()[k].occurrence)
            ==> post.services.slots().contains_key(k) && post.services.slots()[k] == pre.services.slots()[k],
{
    let j = drained_journal(pre, fid);
    if pre.services.current_is(k, occurrence) {
        assert(j.contains_key(t) && withdraws(j[t], k, pre.services.slots()[k].occurrence));
        assert(journal_withdraws(j, k, pre.services.slots()[k].occurrence));
        assert(!post.services.slots().contains_key(k));
    }
    if pre.services.slots().contains_key(k) && !journal_withdraws(pre.fibers@[fid].disposables@, k, pre.services.slots()[k].occurrence) {
        assert(post.services.slots().contains_key(k));
    }
}

/// After a successful removal the slot is free again: the same Context,
/// with the contract the name is bound to, publishes into it once more.
pub proof fn law_republish_after_remove<V>(
    pre: Root<V>,
    mid: Root<V>,
    post: Root<V>,
    p: ServicePublication,
    ctx: Context,
    service: String,
    contract: u64,
    value: V,
    r: Result<ServicePublication, ServicePublishError>,
)
    requires
        remove_outcome(pre, mid, p, Ok(())),
        provide_outcome(mid, post, ctx, service, contract, value, r),
        service@ == p.spec_service()@,
        ctx.spec_isolate_key(service@) == p.spec_realm(),
        mid.fibers@.contains_key(ctx.fiber),
        mid.fibers@[ctx.fiber].admits(),
        mid.services.contracts().contains_key(service@) ==> mid.services.contracts()[service@] == contract,
    ensures
        r matches Ok(q) && q.spec_occurrence() == mid.next_occurrence && q.spec_realm() == p.spec_realm(),
        post.services.current_is((p.spec_realm(), service@), mid.next_occurrence),
{
}

/// One step of the Service bookkeeping, as the library's operations take it.
pub open spec fn service_step<V>(pre: Root<V>, post: Root<V>) -> bool {
    &&& post.wf()
    &&& {
        ||| exists|ctx: Context, service: String, contract: u64, value: V, r: Result<ServicePublication, ServicePublishError>|
            #[trigger] provide_outcome(pre, post, ctx, service, contract, value, r)
        ||| exists|p: ServicePublication, value: V, r: Result<(), ServiceControlError>| #[trigger] set_outcome(pre, post, p, value, r)
        ||| exists|p: ServicePublication, r: Result<(), ServiceControlError>| #[trigger] remove_outcome(pre, post, p, r)
        ||| exists|c: Cleanup, r: Option<u64>| #[trigger] cleanup_outcome(pre, post, c, r)
        ||| exists|fid: FiberId, r: Seq<(u64, u64)>| #[trigger] drain_outcome(pre, post, fid, r)
    }
}

/// Every consecutive pair of states in `rs` is one step.
pub open spec fn service_run<V>(rs: Seq<Root<V>>) -> bool
    decreases rs.len(),
{
    if rs.len() <= 1 {
        true
    } else {
        service_run(rs.drop_last()) && service_step(rs[rs.len() - 2], rs.last())
    }
}

/// The binding of every name in `pre` is in `post`, unchanged.
pub open spec fn keeps_bindings<V>(pre: Root<V>, post: Root<V>) -> bool {
    forall|n: Seq<char>| #[trigger] pre.services.contracts().contains_key(n) ==>
        post.services.contracts().contains_key(n) && post.services.contracts()[n] == pre.services.contracts()[n]
}

proof fn lemma_step_keeps_bindings<V>(pre: Root<V>, post: Root<V>)
    requires
        service_step(pre, post),
    ensures
        keeps_bindings(pre, post),
{
    if exists|ctx: Context, service: String, contract: u64, value: V, r: Result<ServicePublication, ServicePublishError>|
        #[trigger] provide_outcome(pre, post, ctx, service, contract, value, r) {
        let (ctx, service, contract, value, r) = choose|ctx: Context, service: String, contract: u64, value: V, r: Result<ServicePublication, ServicePublishError>|
            #[trigger] provide_outcome(pre, post, ctx, service, contract, value, r);
        law_contract_binding_is_stable(pre, post, ctx, service, contract, value, r);
    }
}

proof fn lemma_run_keeps_bindings<V>(rs: Seq<Root<V>>)
    requires
        rs.len() > 0,
        service_run(rs),
    ensures
        keeps_bindings(rs[0], rs.last()),
    decreases rs.len(),
{
    if rs.len() > 1 {
        let front = rs.drop_last();
        lemma_run_keeps_bindings(front);
        assert(front.last() == rs[rs.len() - 2]);
        assert(front[0] == rs[0]);
        lemma_step_keeps_bindings(rs[rs.len() - 2], rs.last());
    }
}

/// Across any run of publications, payload replacements, removals, cleanups
/// and drains, a Service name stays bound to the contract it was first bound
/// to, and every slot carries its name's bound contract.
pub proof fn law_bindings_stable_over_runs<V>(rs: Seq<Root<V>>)
    requires
        rs.len() > 0,
        rs[0].wf(),
        service_run(rs),
    ensures
        keeps_bindings(rs[0], rs.last()),
        forall|k: SlotKey| #[trigger] rs.last().services.slots().contains_key(k) ==> {
            &&& rs.last().services.contracts().contains_key(k.1)
            &&& rs.last().services.contracts()[k.1] == rs.last().services.slots()[k].contract
        },
{
    lemma_run_keeps_bindings(rs);
    if rs.len() > 1 {
        assert(rs.last().wf());
    }
    rs.last().services.lemma_wf();
}

/// Once a name is bound to a contract, a later publication under that name
/// with any other contract is refused as a contract mismatch, whatever ran
/// in between.
pub proof fn law_rebinding_refused<V>(
    rs: Seq<Root<V>>,
    post: Root<V>,
    ctx: Context,
    service: String,
    bound: u64,
    contract: u64,
    value: V,
    r: Result<ServicePublication, ServicePublishError>,
)
    requires
        rs.len() > 0,
        service_run(rs),
        rs[0].services.contracts().contains_key(service@),
        rs[0].services.contracts()[service@] == bound,
        contract != bound,
        provide_outcome(rs.last(), post, ctx, service, contract, value, r),
        rs.last().fibers@.contains_key(ctx.fiber),
        rs.last().fibers@[ctx.fiber].admits(),
    ensures
        r == Err::<ServicePublication, ServicePublishError>(ServicePublishError::ContractMismatch { service }),
{
    lemma_run_keeps_bindings(rs);
    assert(rs.last().services.contracts().contains_key(service@));
}


/// A guest whose disposal cleanup the generation refuses is disposed exactly
/// once, and only then is the refusal reported.
pub proof fn law_refused_cleanup_disposes_then_reports<I, G>(e: EffectRegistrationError)
    ensures
        ({
            let (p1, a1) = spec_apply_step(ApplyPhase::Registering, ApplyEvent::<I, G>::CleanupRefused(e));
            let (p2, a2) = spec_apply_step(p1, ApplyEvent::<I, G>::Disposed);
            &&& a1 == ApplyAction::<I, G>::Dispose
            &&& p2 == ApplyPhase::Finished
            &&& a2 == ApplyAction::<I, G>::Finish(Err(ComponentApplyError::CleanupRegistration(e)))
        }),
{
}

/// Once the cleanup is registered, a failed activation is reported as is and
/// the guest is not disposed on that path: its registered cleanup does it.
pub proof fn law_activation_failure_leaves_disposal_to_cleanup<I, G>(g: G)
    ensures
        ({
            let (p1, a1) = spec_apply_step(ApplyPhase::Registering, ApplyEvent::<I, G>::CleanupRegistered);
            let (p2, a2) = spec_apply_step(p1, ApplyEvent::<I, G>::ActivateFailed(g));
            &&& a1 == ApplyAction::<I, G>::Activate
            &&& p2 == ApplyPhase::Finished
            &&& a2 == ApplyAction::<I, G>::Finish(Err(ComponentApplyError::Activate(g)))
        }),
{
}


/// Closing withdraws visibility before cleanup removes rows: once the
/// generation has left Active (or is marked dead), draining it removes only
/// rows nobody can see, and announces nothing. Stated for journals whose
/// current withdrawals all name rows the generation itself owns, as every
/// publication commits.
pub proof fn law_drain_after_close_is_silent<V>(pre: Root<V>, post: Root<V>, fid: FiberId, r: Seq<(u64, u64)>)
    requires
        drain_outcome(pre, post, fid, r),
        pre.fibers@.contains_key(fid),
        !(pre.fibers@[fid].alive && pre.fibers@[fid].state == FiberState::Active),
        forall|t: u64, k: SlotKey| pre.fibers@[fid].disposables@.contains_key(t) && pre.services.slots().contains_key(k)
            && #[trigger] withdraws(pre.fibers@[fid].disposables@[t], k, pre.services.slots()[k].occurrence)
            ==> pre.services.slots()[k].owner == fid,
    ensures
        forall|k: SlotKey| #[trigger] pre.services.slots().contains_key(k) && !post.services.slots().contains_key(k)
            ==> !pre.services.spec_visible_at(pre.fibers@, k),
        post.observations == pre.observations,
{
    let j = drained_journal(pre, fid);
    assert forall|k: SlotKey| #[trigger] pre.services.slots().contains_key(k) && !post.services.slots().contains_key(k)
        implies !pre.services.spec_visible_at(pre.fibers@, k) by {
        assert(journal_withdraws(j, k, pre.services.slots()[k].occurrence));
        let t = choose|t: u64| j.contains_key(t) && #[trigger] withdraws(j[t], k, pre.services.slots()[k].occurrence);
        assert(pre.services.slots()[k].owner == fid);
    }
}


/// The watchdog decision in full: it reports cancellation exactly when the
/// wait was cancelled; otherwise it reports a timeout once the deadline has
/// elapsed and, before that, parks for exactly the time that is left.
pub proof fn law_watchdog_decides_by_cancellation_then_clock(cancelled: bool, elapsed: u64, timeout: u64)
    ensures
        (spec_wait_step(cancelled, elapsed, timeout) == WaitStep::Cancelled) == cancelled,
        !cancelled && elapsed >= timeout ==> spec_wait_step(cancelled, elapsed, timeout) == WaitStep::TimedOut,
        !cancelled && elapsed < timeout ==> spec_wait_step(cancelled, elapsed, timeout)
            == (WaitStep::Park { remaining_nanos: (timeout - elapsed) as u64 }),
{
}

/// A Fiber `x` declares one of the edges `es`.
proof fn lemma_scan_exact(order: Seq<FiberId>, fibers: Map<FiberId, Fiber>, es: Seq<EdgeKey>)
    ensures
        forall|x: FiberId| #[trigger] scan(order, fibers, es).contains(x) <==> {
            &&& order.contains(x)
            &&& fibers[x].alive
            &&& exists|i: int| 0 <= i < fibers[x].edges@.len() && es.contains(#[trigger] fibers[x].edges@[i].key())
        },
        (forall|i: int, j: int| 0 <= i < j < order.len() ==> order[i] != order[j]) ==>
            (forall|i: int, j: int| 0 <= i < j < scan(order, fibers, es).len() ==> scan(order, fibers, es)[i] != scan(order, fibers, es)[j]),
    decreases order.len(),
{
    if order.len() > 0 {
        let front = order.drop_last();
        let y = order.last();
        lemma_scan_exact(front, fibers, es);
        let rest = scan(front, fibers, es);
        assert forall|x: FiberId| #[trigger] order.contains(x) <==> front.contains(x) || x == y by {
            lemma_push_contains(front, y, x);
            assert(front.push(y) =~= order);
        }
        assert forall|x: FiberId| #[trigger] scan(order, fibers, es).contains(x) <==> {
            &&& order.contains(x)
            &&& fibers[x].alive
            &&& exists|i: int| 0 <= i < fibers[x].edges@.len() && es.contains(#[trigger] fibers[x].edges@[i].key())
        } by {
            lemma_push_contains(rest, y, x);
        }
        if forall|i: int, j: int| 0 <= i < j < order.len() ==> order[i] != order[j] {
            assert(forall|i: int, j: int| 0 <= i < j < front.len() ==> front[i] != front[j]) by {
                assert forall|i: int, j: int| 0 <= i < j < front.len() implies front[i] != front[j] by {
                    assert(front[i] == order[i] && front[j] == order[j]);
                }
            }
            if !front.contains(y) {
                assert(!rest.contains(y));
            } else {
                let k = choose|k: int| 0 <= k < front.len() && front[k] == y;
                assert(order[k] == order[order.len() - 1]);
            }
            let sc = scan(order, fibers, es);
            assert forall|i: int, j: int| 0 <= i < j < sc.len() implies sc[i] != sc[j] by {
                if sc.len() != rest.len() && j == sc.len() - 1 {
                    assert(sc[i] == rest[i]);
                    assert(rest.contains(rest[i]));
                } else {
                    assert(sc[i] == rest[i] && sc[j] == rest[j]);
                }
            }
        }
    }
}

/// The fallback scan over an incomplete projection finds exactly the alive
/// resident Fibers declaring one of the requested edges, each once.
pub proof fn law_scan_finds_every_declaring_fiber(order: Seq<FiberId>, fibers: Map<FiberId, Fiber>, es: Seq<EdgeKey>, x: FiberId)
    ensures
        scan(order, fibers, es).contains(x) <==> {
            &&& order.contains(x)
            &&& fibers[x].alive
            &&& exists|i: int| 0 <= i < fibers[x].edges@.len() && es.contains(#[trigger] fibers[x].edges@[i].key())
        },
        (forall|i: int, j: int| 0 <= i < j < order.len() ==> order[i] != order[j]) ==>
            (forall|i: int, j: int| 0 <= i < j < scan(order, fibers, es).len() ==> scan(order, fibers, es)[i] != scan(order, fibers, es)[j]),
{
    lemma_scan_exact(order, fibers, es);
}

/// When the projection is incomplete, the dependents of a change are exactly
/// the alive resident Fibers declaring one of the changed edges, each once.
pub proof fn law_incomplete_projection_notifies_every_dependent<V>(root: Root<V>, es: Seq<EdgeKey>)
    requires
        root.wf(),
        !root.deps.spec_complete(),
    ensures
        forall|x: FiberId| #[trigger] spec_affected(root, es).contains(x) <==> {
            &&& root.fibers@.contains_key(x)
            &&& root.fibers@[x].alive
            &&& exists|i: int| 0 <= i < root.fibers@[x].edges@.len() && es.contains(#[trigger] root.fibers@[x].edges@[i].key())
        },
        forall|i: int, j: int| 0 <= i < j < spec_affected(root, es).len() ==> spec_affected(root, es)[i] != spec_affected(root, es)[j],
{
    root.fibers.lemma_wf();
    let order = root.fibers.order();
    lemma_scan_exact(order, root.fibers@, es);
    assert forall|x: FiberId| order.contains(x) <==> root.fibers@.contains_key(x) by {
        if order.contains(x) {
            let i = choose|i: int| 0 <= i < order.len() && order[i] == x;
            assert(root.fibers@.contains_key(order[i]));
        }
    }
}

proof fn lemma_without_contains(s: Seq<FiberId>, id: FiberId, x: FiberId)
    ensures
        without(s, id).contains(x) <==> s.contains(x) && x != id,
    decreases s.len(),
{
    if s.len() > 0 {
        lemma_without_contains(s.drop_last(), id, x);
        lemma_push_contains(s.drop_last(), s.last(), x);
        assert(s.drop_last().push(s.last()) =~= s);
        if s.last() != id {
            lemma_push_contains(without(s.drop_last(), id), s.last(), x);
        }
    }
}

/// Unregistering `id` from the edges `es` removes `id` from their rows and
/// nothing else: every other identity stays in every row that listed it,
/// and rows of undeclared edges are untouched.
pub proof fn law_unregister_keeps_other_dependents(m: Map<EdgeKey, Seq<FiberId>>, es: Seq<EdgeKey>, id: FiberId)
    ensures
        forall|e: EdgeKey, x: FiberId| x != id ==> (#[trigger] row_has(remove_edges(m, es, id), e, x) <==> row_has(m, e, x)),
        forall|e: EdgeKey| #[trigger] es.contains(e) && remove_edges(m, es, id).contains_key(e) ==> !remove_edges(m, es, id)[e].contains(id),
        forall|e: EdgeKey| !es.contains(e) ==> (#[trigger] remove_edges(m, es, id).contains_key(e) == m.contains_key(e)
            && (m.contains_key(e) ==> remove_edges(m, es, id)[e] == m[e])),
    decreases es.len(),
{
    if es.len() > 0 {
        let front = es.drop_last();
        let e0 = es.last();
        law_unregister_keeps_other_dependents(m, front, id);
        let m1 = remove_edges(m, front, id);
        let m2 = remove_edges(m, es, id);
        assert forall|e: EdgeKey| #[trigger] es.contains(e) <==> front.contains(e) || e == e0 by {
            assert(front.push(e0) =~= es);
            if es.contains(e) {
                let i = choose|i: int| 0 <= i < es.len() && es[i] == e;
                if i < front.len() {
                    assert(front[i] == e);
                }
            }
            if front.contains(e) {
                let i = choose|i: int| 0 <= i < front.len() && front[i] == e;
                assert(es[i] == e);
            }
            if e == e0 {
                assert(es[es.len() - 1] == e);
            }
        }
        if m1.contains_key(e0) {
            assert forall|x: FiberId| #[trigger] without(m1[e0], id).contains(x) <==> m1[e0].contains(x) && x != id by {
                lemma_without_contains(m1[e0], id, x);
            }
            if without(m1[e0], id).len() == 0 {
                assert forall|x: FiberId| x != id implies !m1[e0].contains(x) by {
                    if m1[e0].contains(x) {
                        assert(without(m1[e0], id).contains(x));
                    }
                }
            }
        }
        assert forall|e: EdgeKey, x: FiberId| x != id implies (#[trigger] row_has(m2, e, x) <==> row_has(m, e, x)) by {
            assert(row_has(m1, e, x) <==> row_has(m, e, x));
        }
        assert forall|e: EdgeKey| #[trigger] es.contains(e) && m2.contains_key(e) implies !m2[e].contains(id) by {
            if e != e0 {
                assert(front.contains(e));
            }
        }
        assert forall|e: EdgeKey| !es.contains(e) implies (#[trigger] m2.contains_key(e) == m.contains_key(e)
            && (m.contains_key(e) ==> m2[e] == m[e])) by {
            assert(!front.contains(e) && e != e0);
        }
    }
}

/// A live capability's generation admits mutation exactly while it is
/// resident, not marked dead, and Loading or Active.
pub proof fn law_mutation_needs_a_live_generation(fibers: Map<FiberId, Fiber>, owner: FiberId)
    ensures
        (spec_mutation_state(fibers, owner) is Some) == (fibers.contains_key(owner) && fibers[owner].alive
            && (fibers[owner].state == FiberState::Loading || fibers[owner].state == FiberState::Active)),
        spec_mutation_state(fibers, owner) matches Some(s) ==> s == fibers[owner].state,
{
}

/// Setting the payload through the capability of a current occurrence whose
/// owner is gone or marked dead is refused as closed and changes no slot.
pub proof fn law_dead_generation_cannot_set<V>(pre: Root<V>, post: Root<V>, p: ServicePublication, value: V, r: Result<(), ServiceControlError>)
    requires
        set_outcome(pre, post, p, value, r),
        pre.services.current_is((p.spec_realm(), p.spec_service()@), p.spec_occurrence()),
        !(pre.fibers@.contains_key(p.spec_owner()) && pre.fibers@[p.spec_owner()].alive),
    ensures
        r == Err::<(), ServiceControlError>(ServiceControlError::MutationClosed { service: p.spec_service() }),
        post.services.slots() == pre.services.slots(),
{
}

/// Removing through the capability of a current occurrence whose owner is
/// gone or marked dead is refused as closed and changes no slot.
pub proof fn law_dead_generation_cannot_remove<V>(pre: Root<V>, post: Root<V>, p: ServicePublication, r: Result<(), ServiceControlError>)
    requires
        remove_outcome(pre, post, p, r),
        pre.services.current_is((p.spec_realm(), p.spec_service()@), p.spec_occurrence()),
        !(pre.fibers@.contains_key(p.spec_owner()) && pre.fibers@[p.spec_owner()].alive),
    ensures
        r == Err::<(), ServiceControlError>(ServiceControlError::MutationClosed { service: p.spec_service() }),
        post.services.slots() == pre.services.slots(),
        post.fibers@ == pre.fibers@,
{
}

/// A current occurrence of an alive Loading or Active owner is mutated: set
/// replaces its payload and remove empties its slot.
pub proof fn law_live_generation_mutates<V>(
    pre: Root<V>,
    post1: Root<V>,
    post2: Root<V>,
    p: ServicePublication,
    value: V,
    r1: Result<(), ServiceControlError>,
    r2: Result<(), ServiceControlError>,
)
    requires
        set_outcome(pre, post1, p, value, r1),
        remove_outcome(pre, post2, p, r2),
        pre.services.current_is((p.spec_realm(), p.spec_service()@), p.spec_occurrence()),
        pre.fibers@.contains_key(p.spec_owner()),
        pre.fibers@[p.spec_owner()].alive,
        pre.fibers@[p.spec_owner()].state == FiberState::Loading || pre.fibers@[p.spec_owner()].state == FiberState::Active,
    ensures
        r1 is Ok,
        post1.services.slots()[(p.spec_realm(), p.spec_service()@)].value == value,
        r2 is Ok,
        !post2.services.slots().contains_key((p.spec_realm(), p.spec_service()@)),
{
}

/// A run task's own Fiber refuses every mutator, and every wait while a
/// drain joins it, whatever brackets are open on the task.
pub proof fn law_run_owner_refusal_ignores_brackets(ctx: SettleCtx, id: FiberId, draining: bool, op: LifecycleOperation)
    requires
        ctx.spec_run_owner() == Some(id),
        !(op == LifecycleOperation::Ready || op == LifecycleOperation::WaitState) || draining,
    ensures
        spec_is_doomed(Some(ctx), id, draining, op),
{
}

/// Any operation on an allocation whose bracket is open on the task is refused.
pub proof fn law_open_bracket_refuses(ctx: SettleCtx, id: FiberId, draining: bool, op: LifecycleOperation)
    requires
        ctx.spec_settling().contains(id),
    ensures
        spec_is_doomed(Some(ctx), id, draining, op),
{
}

/// Nothing else is refused: an allocation with no open bracket proceeds
/// unless it owns the run task and the operation would wait on itself.
pub proof fn law_unbracketed_refusal_is_only_self_wait(ctx: SettleCtx, id: FiberId, draining: bool, op: LifecycleOperation)
    requires
        !ctx.spec_settling().contains(id),
        ctx.spec_run_owner() != Some(id) || ((op == LifecycleOperation::Ready || op == LifecycleOperation::WaitState) && !draining),
    ensures
        !spec_is_doomed(Some(ctx), id, draining, op),
{
}


/// Registering `id` for the edges `es` adds `id` and nothing else: every
/// identity a row lists afterwards was listed before or is `id` under one of `es`.
pub proof fn law_register_adds_only_its_fiber(m: Map<EdgeKey, Seq<FiberId>>, es: Seq<EdgeKey>, id: FiberId)
    ensures
        forall|e: EdgeKey, x: FiberId| #[trigger] row_has(add_edges(m, es, id), e, x) ==> row_has(m, e, x) || (x == id && es.contains(e)),
    decreases es.len(),
{
    if es.len() > 0 {
        let front = es.drop_last();
        let e0 = es.last();
        law_register_adds_only_its_fiber(m, front, id);
        let m1 = add_edges(m, front, id);
        let l = if m1.contains_key(e0) { m1[e0] } else { Seq::<FiberId>::empty() };
        assert forall|e: EdgeKey, x: FiberId| #[trigger] row_has(add_edges(m, es, id), e, x) implies row_has(m, e, x) || (x == id && es.contains(e)) by {
            if e == e0 {
                lemma_push_contains(l, id, x);
                assert(es[es.len() - 1] == e0);
                if x != id {
                    assert(row_has(m1, e, x));
                }
            } else {
                assert(row_has(m1, e, x));
            }
            if row_has(m1, e, x) && !row_has(m, e, x) {
                let i = choose|i: int| 0 <= i < front.len() && front[i] == e;
                assert(es[i] == e);
            }
        }
    }
}

} // verus!
