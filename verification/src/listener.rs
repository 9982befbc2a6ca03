//! Listener registration options, the registration store, move-only
//! registration controls, and the role adapters that wrap user callbacks.

use vstd::prelude::*;
use std::marker::PhantomData;
use crate::fiber::FiberId;
use crate::gated::{Cleanup, PublishStep, PublishRefused};
use crate::runtime::{Context, Root};

verus! {

/// Immutable registration options. Default is append, scoped, repeatable.
#[derive(Debug, Clone, Copy, PartialEq, Eq, Structural)]
pub struct ListenerOptions {
    prepend: bool,
    global: bool,
    once: bool,
}

impl Default for ListenerOptions {
    fn default() -> (o: ListenerOptions)
        ensures
            !o.spec_prepend(),
            !o.spec_global(),
            !o.spec_once(),
    {
        ListenerOptions { prepend: false, global: false, once: false }
    }
}

impl ListenerOptions {
    pub closed spec fn spec_prepend(self) -> bool {
        self.prepend
    }

    pub closed spec fn spec_global(self) -> bool {
        self.global
    }

    pub closed spec fn spec_once(self) -> bool {
        self.once
    }

    /// Place this occurrence before existing registrations in the same stream.
    pub fn prepend(self) -> (o: ListenerOptions)
        ensures
            o.spec_prepend(),
            o.spec_global() == self.spec_global(),
            o.spec_once() == self.spec_once(),
    {
        ListenerOptions { prepend: true, ..self }
    }

    /// Make this registration globally reachable instead of Scope-limited.
    pub fn global(self) -> (o: ListenerOptions)
        ensures
            o.spec_prepend() == self.spec_prepend(),
            o.spec_global(),
            o.spec_once() == self.spec_once(),
    {
        ListenerOptions { global: true, ..self }
    }

    /// Mark this registration as claim-at-most-once.
    pub fn once(self) -> (o: ListenerOptions)
        ensures
            o.spec_prepend() == self.spec_prepend(),
            o.spec_global() == self.spec_global(),
            o.spec_once(),
    {
        ListenerOptions { once: true, ..self }
    }

    pub fn is_prepend(self) -> (b: bool)
        ensures
            b == self.spec_prepend(),
    {
        self.prepend
    }

    pub fn is_global(self) -> (b: bool)
        ensures
            b == self.spec_global(),
    {
        self.global
    }

    pub fn is_once(self) -> (b: bool)
        ensures
            b == self.spec_once(),
    {
        self.once
    }
}

/// One registered listener occurrence of one typed Event stream.
pub struct ListenerEntry {
    pub id: u64,
    pub event: String,
    pub options: ListenerOptions,
    pub owner: FiberId,
}

/// The registered listener occurrences in stream order.
pub struct ListenerStore {
    entries: Vec<ListenerEntry>,
    next_id: u64,
}

/// The position of the occurrence `id` in `s` (meaningful when present).
pub open spec fn listener_position(s: Seq<ListenerEntry>, id: u64) -> int {
    choose|i: int| 0 <= i < s.len() && s[i].id == id
}

pub open spec fn has_listener(s: Seq<ListenerEntry>, id: u64) -> bool {
    exists|i: int| 0 <= i < s.len() && s[i].id == id
}

impl View for ListenerStore {
    type V = Seq<ListenerEntry>;

    closed spec fn view(&self) -> Seq<ListenerEntry> {
        self.entries@
    }
}

impl ListenerStore {
    #[verifier::type_invariant]
    closed spec fn wf(&self) -> bool {
        &&& forall|i: int, j: int| 0 <= i < self.entries@.len() && 0 <= j < self.entries@.len() && i != j
            ==> #[trigger] self.entries@[i].id != #[trigger] self.entries@[j].id
        &&& forall|i: int| 0 <= i < self.entries@.len() ==> (#[trigger] self.entries@[i]).id < self.next_id
    }

    /// The identity the next registration receives.
    pub closed spec fn next_id(&self) -> u64 {
        self.next_id
    }

    pub fn new() -> (s: ListenerStore)
        ensures
            s@.len() == 0,
            s.next_id() == 0,
    {
        ListenerStore { entries: Vec::new(), next_id: 0 }
    }

    /// The identity the next registration will receive.
    pub fn peek_id(&self) -> (id: u64)
        ensures
            id == self.next_id(),
    {
        self.next_id
    }

    /// Register one occurrence: prepended ones go before every existing one.
    pub fn register(&mut self, event: String, options: ListenerOptions, owner: FiberId) -> (id: u64)
        requires
            old(self).next_id() < u64::MAX,
        ensures
            id == old(self).next_id(),
            !has_listener(old(self)@, id),
            final(self).next_id() == id + 1,
            ({
                let e = ListenerEntry { id, event, options, owner };
                final(self)@ == (if options.spec_prepend() { seq![e] + old(self)@ } else { old(self)@.push(e) })
            }),
    {
        proof {
            use_type_invariant(&*self);
        }
        let mut taken = ListenerStore::new();
        std::mem::swap(self, &mut taken);
        let ListenerStore { entries, next_id } = taken;
        let mut entries = entries;
        let id = next_id;
        let e = ListenerEntry { id, event, options, owner };
        if options.prepend {
            entries.insert(0, e);
            proof {
                assert(entries@ =~= seq![e] + old(self).entries@);
            }
        } else {
            entries.push(e);
        }
        proof {
            assert forall|i: int| 0 <= i < entries@.len() implies (#[trigger] entries@[i]).id < id + 1 by {
                if options.prepend {
                    if i > 0 {
                        assert(entries@[i] == old(self).entries@[i - 1]);
                    }
                } else if i < old(self).entries@.len() {
                    assert(entries@[i] == old(self).entries@[i]);
                }
            }
            assert forall|i: int, j: int| 0 <= i < entries@.len() && 0 <= j < entries@.len() && i != j
                implies #[trigger] entries@[i].id != #[trigger] entries@[j].id by {
                if options.prepend {
                    if i > 0 {
                        assert(entries@[i] == old(self).entries@[i - 1]);
                    }
                    if j > 0 {
                        assert(entries@[j] == old(self).entries@[j - 1]);
                    }
                } else {
                    if i < old(self).entries@.len() {
                        assert(entries@[i] == old(self).entries@[i]);
                    }
                    if j < old(self).entries@.len() {
                        assert(entries@[j] == old(self).entries@[j]);
                    }
                }
            }
            if has_listener(old(self)@, id) {
                let i = choose|i: int| 0 <= i < old(self)@.len() && old(self)@[i].id == id;
                assert(old(self).entries@[i].id < old(self).next_id);
            }
        }
        *self = ListenerStore { entries, next_id: id + 1 };
        id
    }

    /// Unregister the occurrence `id`; false when it is not registered.
    pub fn remove(&mut self, id: u64) -> (removed: bool)
        ensures
            removed == has_listener(old(self)@, id),
            !has_listener(final(self)@, id),
            forall|x: u64| x != id ==> (#[trigger] has_listener(final(self)@, x) == has_listener(old(self)@, x)),
            final(self).next_id() == old(self).next_id(),
            final(self)@ == (if removed { old(self)@.remove(listener_position(old(self)@, id)) } else { old(self)@ }),
    {
        proof {
            use_type_invariant(&*self);
        }
        let mut i: usize = 0;
        while i < self.entries.len()
            invariant
                self.wf(),
                *self == *old(self),
                i <= self.entries@.len(),
                forall|j: int| 0 <= j < i ==> self.entries@[j].id != id,
            decreases self.entries@.len() - i,
        {
            if self.entries[i].id == id {
                proof {
                    let p = listener_position(self@, id);
                    assert(self.entries@[i as int].id == id);
                    if p != i {
                        assert(self.entries@[p].id != self.entries@[i as int].id);
                    }
                }
                let mut taken = ListenerStore::new();
                std::mem::swap(self, &mut taken);
                let ListenerStore { entries, next_id } = taken;
                let mut entries = entries;
                entries.remove(i);
                proof {
                    assert forall|a: int| 0 <= a < entries@.len() implies (#[trigger] entries@[a]).id < next_id by {
                        if a < i {
                            assert(entries@[a] == old(self).entries@[a]);
                        } else {
                            assert(entries@[a] == old(self).entries@[a + 1]);
                        }
                    }
                    assert forall|a: int, b: int| 0 <= a < entries@.len() && 0 <= b < entries@.len() && a != b
                        implies #[trigger] entries@[a].id != #[trigger] entries@[b].id by {
                        let a2 = if a < i { a } else { a + 1 };
                        let b2 = if b < i { b } else { b + 1 };
                        assert(entries@[a] == old(self).entries@[a2]);
                        assert(entries@[b] == old(self).entries@[b2]);
                    }
                }
                proof {
                    if has_listener(entries@, id) {
                        let a = choose|a: int| 0 <= a < entries@.len() && entries@[a].id == id;
                        let a2 = if a < i { a } else { a + 1 };
                        assert(entries@[a] == old(self).entries@[a2]);
                        assert(old(self).entries@[i as int].id == id);
                    }
                    assert forall|x: u64| x != id implies (#[trigger] has_listener(entries@, x) == has_listener(old(self)@, x)) by {
                        if has_listener(entries@, x) {
                            let a = choose|a: int| 0 <= a < entries@.len() && entries@[a].id == x;
                            let a2 = if a < i { a } else { a + 1 };
                            assert(entries@[a] == old(self).entries@[a2]);
                        }
                        if has_listener(old(self)@, x) {
                            let a = choose|a: int| 0 <= a < old(self)@.len() && old(self)@[a].id == x;
                            assert(a != i);
                            let a2 = if a < i { a } else { a - 1 };
                            assert(entries@[a2] == old(self).entries@[a]);
                        }
                    }
                }
                *self = ListenerStore { entries, next_id };
                return true;
            }
            i = i + 1;
        }
        proof {
            if has_listener(self@, id) {
                let a = choose|a: int| 0 <= a < self@.len() && self@[a].id == id;
                assert(self.entries@[a].id == id);
            }
        }
        false
    }

    /// The occurrences of one Event stream, in stream order.
    pub fn stream(&self, event: &String) -> (ids: Vec<u64>)
        ensures
            ids@ == stream_of(self@, event@),
    {
        let mut ids: Vec<u64> = Vec::new();
        let mut i: usize = 0;
        while i < self.entries.len()
            invariant
                i <= self.entries@.len(),
                ids@ == stream_of(self.entries@.take(i as int), event@),
            decreases self.entries@.len() - i,
        {
            proof {
                assert(self.entries@.take(i + 1).drop_last() =~= self.entries@.take(i as int));
            }
            if self.entries[i].event == *event {
                ids.push(self.entries[i].id);
            }
            i = i + 1;
        }
        proof {
            assert(self.entries@.take(self.entries@.len() as int) =~= self.entries@);
        }
        ids
    }
}

/// The occurrence identities registered for `event`, in stream order.
pub open spec fn stream_of(s: Seq<ListenerEntry>, event: Seq<char>) -> Seq<u64>
    decreases s.len(),
{
    if s.len() == 0 {
        Seq::empty()
    } else {
        let rest = stream_of(s.drop_last(), event);
        if s.last().event@ == event { rest.push(s.last().id) } else { rest }
    }
}

/// The publish step of a listener registration: insert into the stream.
pub(crate) struct ListenerPublish {
    pub(crate) store: ListenerStore,
    pub(crate) event: String,
    pub(crate) options: ListenerOptions,
    pub(crate) owner: FiberId,
    pub(crate) registered: Option<u64>,
}

impl PublishStep for ListenerPublish {
    closed spec fn ready(&self) -> bool {
        self.store.next_id() < u64::MAX && self.registered is None
    }

    closed spec fn publish_post(pre: Self, post: Self, published: bool) -> bool {
        {
            let id = pre.store.next_id();
            let e = ListenerEntry { id, event: pre.event, options: pre.options, owner: pre.owner };
            &&& published
            &&& post.registered == Some(id)
            &&& post.store.next_id() == id + 1
            &&& post.store@ == (if pre.options.spec_prepend() { seq![e] + pre.store@ } else { pre.store@.push(e) })
        }
    }

    fn publish(&mut self) -> (r: Result<(), PublishRefused>) {
        let id = self.store.register(self.event.clone(), self.options, self.owner);
        self.registered = Some(id);
        Ok(())
    }
}

/// Registration could not be admitted.
#[derive(Debug, Clone, Copy, PartialEq, Eq, Structural)]
pub enum ListenerRegistrationError {
    /// The current Context generation no longer admits registrations.
    InactiveContext,
}

/// Move-only control for one exact listener registration occurrence.
#[derive(Debug)]
pub struct ListenerRegistration {
    id: u64,
    cleanup: u64,
    owner: FiberId,
}

impl ListenerRegistration {
    pub closed spec fn spec_id(&self) -> u64 {
        self.id
    }

    pub closed spec fn spec_cleanup(&self) -> u64 {
        self.cleanup
    }

    pub closed spec fn spec_owner(&self) -> FiberId {
        self.owner
    }

    /// The registration occurrence this control names.
    pub fn id(&self) -> (id: u64)
        ensures
            id == self.spec_id(),
    {
        self.id
    }

    /// Unregister this exact occurrence if it has not already been consumed or
    /// cleaned up, and disarm the owner's cleanup claim.
    pub fn remove<V>(self, root: &mut Root<V>) -> (removed: bool)
        requires
            old(root).wf(),
        ensures
            final(root).wf(),
            removed == has_listener(old(root).listeners@, self.spec_id()),
            !has_listener(final(root).listeners@, self.spec_id()),
            final(root).listeners@ == (if removed {
                old(root).listeners@.remove(listener_position(old(root).listeners@, self.spec_id()))
            } else {
                old(root).listeners@
            }),
            final(root).listeners.next_id() == old(root).listeners.next_id(),
            final(root).fibers.order() == old(root).fibers.order(),
            !old(root).fibers@.contains_key(self.spec_owner()) ==> final(root).fibers@ == old(root).fibers@,
            old(root).fibers@.contains_key(self.spec_owner()) ==> {
                let f = old(root).fibers@[self.spec_owner()];
                &&& final(root).fibers@.dom() == old(root).fibers@.dom()
                &&& final(root).fibers@[self.spec_owner()].same_but_journal(f)
                &&& final(root).fibers@[self.spec_owner()].disposables@ == f.disposables@.remove(self.spec_cleanup())
                &&& final(root).fibers@[self.spec_owner()].disposables.next_token() == f.disposables.next_token()
                &&& forall|o: FiberId| o != self.spec_owner() && #[trigger] old(root).fibers@.contains_key(o)
                    ==> final(root).fibers@[o] == old(root).fibers@[o]
            },
            final(root).services == old(root).services,
            final(root).deps == old(root).deps,
            final(root).observations == old(root).observations,
            final(root).next_occurrence == old(root).next_occurrence,
    {
        let removed = root.listeners.remove(self.id);
        let _claimed = root.fibers.remove_disposable(self.owner, self.cleanup);
        removed
    }
}

impl Context {
    /// Register one listener occurrence of `event` through the gated seam.
    pub fn register_listener<V>(&self, root: &mut Root<V>, event: &String, options: ListenerOptions)
        -> (r: Result<ListenerRegistration, ListenerRegistrationError>)
        requires
            old(root).wf(),
            old(root).listeners.next_id() < u64::MAX,
            old(root).fibers@.contains_key(self.fiber) ==> old(root).fibers@[self.fiber].disposables.can_push(),
        ensures
            final(root).wf(),
            final(root).services == old(root).services,
            final(root).deps == old(root).deps,
            final(root).observations == old(root).observations,
            final(root).next_occurrence == old(root).next_occurrence,
            final(root).fibers.order() == old(root).fibers.order(),
            !(old(root).fibers@.contains_key(self.fiber) && old(root).fibers@[self.fiber].admits()) ==> {
                &&& r == Err::<ListenerRegistration, ListenerRegistrationError>(ListenerRegistrationError::InactiveContext)
                &&& final(root).fibers@ == old(root).fibers@
                &&& final(root).listeners@ == old(root).listeners@
                &&& final(root).listeners.next_id() == old(root).listeners.next_id()
            },
            old(root).fibers@.contains_key(self.fiber) && old(root).fibers@[self.fiber].admits() ==> {
                let f = old(root).fibers@[self.fiber];
                let id = old(root).listeners.next_id();
                let token = f.disposables.next_token();
                let e = ListenerEntry { id, event: *event, options, owner: self.fiber };
                &&& r matches Ok(reg) && reg.spec_id() == id && reg.spec_owner() == self.fiber && reg.spec_cleanup() == token
                &&& final(root).listeners@ == (if options.spec_prepend() {
                    seq![e] + old(root).listeners@
                } else {
                    old(root).listeners@.push(e)
                })
                &&& final(root).listeners.next_id() == id + 1
                &&& final(root).fibers@.dom() == old(root).fibers@.dom()
                &&& final(root).fibers@[self.fiber].same_but_journal(f)
                &&& final(root).fibers@[self.fiber].disposables@ == f.disposables@.insert(token, Cleanup::RemoveListener { id })
                &&& final(root).fibers@[self.fiber].disposables.next_token() == token + 1
                &&& forall|o: FiberId| o != self.fiber && #[trigger] old(root).fibers@.contains_key(o)
                    ==> final(root).fibers@[o] == old(root).fibers@[o]
            },
    {
        let mut store = ListenerStore::new();
        std::mem::swap(&mut store, &mut root.listeners);
        let id = store.peek_id();
        let mut step = ListenerPublish { store, event: event.clone(), options, owner: self.fiber, registered: None };
        let committed = root.fibers.push_gated(self.fiber, Cleanup::RemoveListener { id }, &mut step);
        let ListenerPublish { store, .. } = step;
        root.listeners = store;
        match committed {
            Ok(token) => Ok(ListenerRegistration { id, cleanup: token, owner: self.fiber }),
            Err(_) => Err(ListenerRegistrationError::InactiveContext),
        }
    }
}

/// A callback result carried back to dispatch.
pub enum CallbackValue<P> {
    Observer,
    Responder(Option<P>),
    Mapper(P),
}

/// Opaque invocation-local state composition.
pub struct StatefulCallback<F, C, S> {
    pub factory: F,
    pub callback: C,
    pub state: PhantomData<S>,
}

/// Compose a fresh invocation-local state factory with a role callback.
pub fn with_state<S, F, C>(factory: F, callback: C) -> (r: StatefulCallback<F, C, S>)
    ensures
        r.factory == factory,
        r.callback == callback,
{
    StatefulCallback { factory, callback, state: PhantomData }
}

/// A callback adapted as an Observer (`ASYNC` tells its calling convention).
pub struct ObserverAdapter<C, const ASYNC: bool>(pub C);

/// A callback adapted as a Responder.
pub struct ResponderAdapter<C, const ASYNC: bool>(pub C);

/// A callback adapted as a Mapper of `T` values.
pub struct MapperAdapter<C, const ASYNC: bool, T>(pub C, pub PhantomData<T>);

/// A callback adapted as an Around role of `T`.
pub struct AroundAdapter<C, T>(pub C, pub PhantomData<T>);

/// Adapt an asynchronous callback as an Observer.
pub fn observer<C>(callback: C) -> (r: ObserverAdapter<C, true>)
    ensures
        r.0 == callback,
{
    ObserverAdapter(callback)
}

/// Adapt a synchronous callback as an Observer.
pub fn observer_sync<C>(callback: C) -> (r: ObserverAdapter<C, false>)
    ensures
        r.0 == callback,
{
    ObserverAdapter(callback)
}

/// Adapt an asynchronous optional-answer callback as a Responder.
pub fn responder<C>(callback: C) -> (r: ResponderAdapter<C, true>)
    ensures
        r.0 == callback,
{
    ResponderAdapter(callback)
}

/// Adapt a synchronous optional-answer callback as a Responder.
pub fn responder_sync<C>(callback: C) -> (r: ResponderAdapter<C, false>)
    ensures
        r.0 == callback,
{
    ResponderAdapter(callback)
}

/// Adapt an asynchronous owned-value callback as a Mapper.
pub fn mapper<T, C>(callback: C) -> (r: MapperAdapter<C, true, T>)
    ensures
        r.0 == callback,
{
    MapperAdapter(callback, PhantomData)
}

/// Adapt a synchronous owned-value callback as a Mapper.
pub fn mapper_sync<T, C>(callback: C) -> (r: MapperAdapter<C, false, T>)
    ensures
        r.0 == callback,
{
    MapperAdapter(callback, PhantomData)
}

/// Adapt a callback receiving a consuming continuation as an Around role.
pub fn around<T, C>(callback: C) -> (r: AroundAdapter<C, T>)
    ensures
        r.0 == callback,
{
    AroundAdapter(callback, PhantomData)
}

} // verus!
