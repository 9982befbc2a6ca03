//! One Runtime's shared bookkeeping: resident Fibers, the Service store, the
//! dependency projection, listener registrations and the observation log.
//! Contexts select Service realms; notification commits recheck marks.

use vstd::prelude::*;
use crate::fiber::{DependencyEdge, Fiber, FiberId, FiberState, FiberTable, RealmKey, DEFAULT_REALM, edge_keys};
use crate::store::ServiceStore;
use crate::deps::{DependencyIndex, EdgeKey, dedup, collected, pruned_after};
use crate::listener::ListenerStore;

verus! {

/// An opaque Runtime-local placement identity for exact Service slots.
/// Realms from different Runtimes compare unequal.
#[derive(Debug, Clone, Copy, PartialEq, Eq, Structural)]
pub struct ServiceRealm {
    membership: u64,
    key: RealmKey,
}

impl ServiceRealm {
    pub closed spec fn spec_membership(self) -> u64 {
        self.membership
    }

    pub closed spec fn spec_key(self) -> RealmKey {
        self.key
    }

    /// The realm with this membership and key.
    pub closed spec fn realm_of(membership: u64, key: RealmKey) -> ServiceRealm {
        ServiceRealm { membership, key }
    }

    pub fn new(membership: u64, key: RealmKey) -> (r: ServiceRealm)
        ensures
            r == ServiceRealm::realm_of(membership, key),
            r.spec_membership() == membership,
            r.spec_key() == key,
    {
        ServiceRealm { membership, key }
    }

    /// Whether this realm was allocated by the Runtime with this membership.
    pub fn belongs_to(&self, membership: u64) -> (b: bool)
        ensures
            b == (self.spec_membership() == membership),
    {
        self.membership == membership
    }

    pub fn key(&self) -> (k: RealmKey)
        ensures
            k == self.spec_key(),
    {
        self.key
    }

    /// Equality is key equality within one Runtime.
    pub fn same(&self, other: &ServiceRealm) -> (b: bool)
        ensures
            b == (*self == *other),
            b == (self.spec_key() == other.spec_key() && self.spec_membership() == other.spec_membership()),
    {
        self.key == other.key && self.membership == other.membership
    }
}

/// A complete Service-realm mapping batch was invalid.
#[derive(Debug, PartialEq, Eq)]
pub enum RealmMappingError {
    /// One Service name occurred more than once in the batch.
    DuplicateService { service: String },
    /// A mapping used a realm allocated by another Runtime.
    ForeignRealm { service: String },
}

/// A read-only record of a Runtime change.
#[derive(Debug)]
pub enum RuntimeObservation {
    /// The visible occurrence of one exact Service slot changed.
    ServiceVisibility { service: String, realm: ServiceRealm, previous: Option<u64>, current: Option<u64> },
}

/// The Runtime's shared bookkeeping.
pub struct Root<V> {
    pub fibers: FiberTable,
    pub services: ServiceStore<V>,
    pub deps: DependencyIndex,
    pub listeners: ListenerStore,
    pub observations: Vec<RuntimeObservation>,
    /// This Runtime's realm membership identity.
    pub membership: u64,
    /// The next fresh publication occurrence identity.
    pub next_occurrence: u64,
    /// The next fresh Fiber identity.
    pub next_fiber: u64,
    /// The next fresh realm key (the default realm is never allocated).
    pub next_realm: u64,
}

impl<V> Root<V> {
    pub open spec fn wf(&self) -> bool {
        &&& self.fibers.wf()
        &&& self.services.wf()
        &&& self.deps.wf()
        &&& forall|k| #[trigger] self.services.slots().contains_key(k) ==> self.services.slots()[k].occurrence < self.next_occurrence
        &&& forall|id: FiberId| #[trigger] self.fibers@.contains_key(id) ==> id < self.next_fiber
        &&& self.next_realm > DEFAULT_REALM
    }

    pub fn new(membership: u64) -> (r: Root<V>)
        ensures
            r.wf(),
            r.membership == membership,
            r.fibers@ == Map::<FiberId, Fiber>::empty(),
            r.services.slots().is_empty(),
            r.services.contracts().is_empty(),
            r.deps.spec_complete(),
            r.deps@.is_empty(),
            r.listeners@.len() == 0,
            r.listeners.next_id() == 0,
            r.observations@.len() == 0,
            r.next_occurrence == 0,
            r.next_fiber == 0,
            r.next_realm == 1,
    {
        let r = Root {
            fibers: FiberTable::new(),
            services: ServiceStore::new(),
            deps: DependencyIndex::new(),
            listeners: ListenerStore::new(),
            observations: Vec::new(),
            membership,
            next_occurrence: 0,
            next_fiber: 0,
            next_realm: 1,
        };
        r
    }

    /// Spawn a Loading Fiber with its declared edges and project them into the index.
    pub fn spawn(&mut self, edges: Vec<DependencyEdge>) -> (id: FiberId)
        requires
            old(self).wf(),
            old(self).next_fiber < u64::MAX,
        ensures
            final(self).wf(),
            id == old(self).next_fiber,
            !old(self).fibers@.contains_key(id),
            final(self).fibers@.contains_key(id),
            final(self).fibers@[id].id == id,
            final(self).fibers@[id].alive,
            final(self).fibers@[id].gate_open,
            !final(self).fibers@[id].draining,
            !final(self).fibers@[id].recheck,
            final(self).fibers@[id].state == FiberState::Loading,
            final(self).fibers@[id].edges@ == edges@,
            final(self).fibers@[id].disposables@.is_empty(),
            final(self).fibers@[id].disposables.next_token() == 0,
            final(self).fibers@[id].disposables.can_push(),
            forall|o: FiberId| o != id ==> (#[trigger] final(self).fibers@.contains_key(o) <==> old(self).fibers@.contains_key(o)),
            forall|o: FiberId| o != id && #[trigger] old(self).fibers@.contains_key(o) ==> final(self).fibers@[o] == old(self).fibers@[o],
            final(self).fibers.order() == old(self).fibers.order().push(id),
            final(self).deps.spec_complete() == old(self).deps.spec_complete(),
            final(self).deps@ == (if old(self).deps.spec_complete() {
                crate::deps::add_edges(old(self).deps@, edge_keys(edges@), id)
            } else {
                old(self).deps@
            }),
            final(self).services == old(self).services,
            final(self).listeners == old(self).listeners,
            final(self).observations@ == old(self).observations@,
            final(self).next_occurrence == old(self).next_occurrence,
            final(self).next_realm == old(self).next_realm,
    {
        let id = self.next_fiber;
        let fiber = Fiber::new(id, edges);
        self.deps.register(&fiber);
        self.fibers.insert(fiber);
        self.next_fiber = id + 1;
        proof {
            assert(fiber.disposables@ =~= Map::<u64, crate::gated::Cleanup>::empty());
        }
        id
    }

    /// Allocate a fresh realm of this Runtime.
    pub fn new_service_realm(&mut self) -> (r: ServiceRealm)
        requires
            old(self).wf(),
            old(self).next_realm < u64::MAX,
        ensures
            final(self).wf(),
            r.spec_membership() == old(self).membership,
            r.spec_key() == old(self).next_realm,
            r.spec_key() != DEFAULT_REALM,
            final(self).next_realm == old(self).next_realm + 1,
            final(self).fibers == old(self).fibers,
            final(self).services == old(self).services,
            final(self).deps == old(self).deps,
            final(self).listeners == old(self).listeners,
            final(self).observations == old(self).observations,
            final(self).next_occurrence == old(self).next_occurrence,
            final(self).next_fiber == old(self).next_fiber,
    {
        let key = self.next_realm;
        self.next_realm = key + 1;
        ServiceRealm::new(self.membership, key)
    }
}

/// A resident Fiber that declares some requested edge.
pub open spec fn declares_some(f: Fiber, es: Seq<EdgeKey>) -> bool {
    exists|i: int| 0 <= i < f.edges@.len() && es.contains(#[trigger] f.edges@[i].key())
}

/// The authoritative scan: alive resident Fibers (residence order) declaring a requested edge.
pub open spec fn scan(order: Seq<FiberId>, fibers: Map<FiberId, Fiber>, es: Seq<EdgeKey>) -> Seq<FiberId>
    decreases order.len(),
{
    if order.len() == 0 {
        Seq::empty()
    } else {
        let rest = scan(order.drop_last(), fibers, es);
        let f = fibers[order.last()];
        if f.alive && declares_some(f, es) { rest.push(order.last()) } else { rest }
    }
}

/// The dependents affected by a change of the requested edges, from the parts.
pub open spec fn affected_of(
    deps: Map<EdgeKey, Seq<FiberId>>,
    complete: bool,
    fibers: Map<FiberId, Fiber>,
    order: Seq<FiberId>,
    es: Seq<EdgeKey>,
) -> Seq<FiberId> {
    if complete {
        dedup(collected(deps, es, fibers))
    } else {
        scan(order, fibers, es)
    }
}

/// The dependents affected by a change of the requested edges.
pub open spec fn spec_affected<V>(root: Root<V>, es: Seq<EdgeKey>) -> Seq<FiberId> {
    affected_of(root.deps@, root.deps.spec_complete(), root.fibers@, root.fibers.order(), es)
}

/// Two Fiber maps agree on residency, death marks and declared edges.
pub open spec fn same_dependency_facts(f1: Map<FiberId, Fiber>, f2: Map<FiberId, Fiber>) -> bool {
    &&& f1.dom() == f2.dom()
    &&& forall|id: FiberId| #[trigger] f1.contains_key(id) ==> f1[id].alive == f2[id].alive && f1[id].edges@ == f2[id].edges@
}

pub proof fn lemma_resident_only_congruent(s: Seq<FiberId>, f1: Map<FiberId, Fiber>, f2: Map<FiberId, Fiber>)
    requires
        f1.dom() == f2.dom(),
    ensures
        crate::deps::resident_only(s, f1) == crate::deps::resident_only(s, f2),
    decreases s.len(),
{
    if s.len() > 0 {
        lemma_resident_only_congruent(s.drop_last(), f1, f2);
        assert(f1.contains_key(s.last()) == f2.contains_key(s.last()));
    }
}

pub proof fn lemma_pruned_congruent(m: Map<EdgeKey, Seq<FiberId>>, es: Seq<EdgeKey>, f1: Map<FiberId, Fiber>, f2: Map<FiberId, Fiber>)
    requires
        f1.dom() == f2.dom(),
    ensures
        pruned_after(m, es, f1) == pruned_after(m, es, f2),
        collected(m, es, f1) == collected(m, es, f2),
    decreases es.len(),
{
    if es.len() > 0 {
        lemma_pruned_congruent(m, es.drop_last(), f1, f2);
        let p = pruned_after(m, es.drop_last(), f1);
        if p.contains_key(es.last()) {
            lemma_resident_only_congruent(p[es.last()], f1, f2);
        }
    }
}

pub proof fn lemma_scan_congruent(order: Seq<FiberId>, f1: Map<FiberId, Fiber>, f2: Map<FiberId, Fiber>, es: Seq<EdgeKey>)
    requires
        same_dependency_facts(f1, f2),
        forall|i: int| 0 <= i < order.len() ==> f1.contains_key(#[trigger] order[i]),
    ensures
        scan(order, f1, es) == scan(order, f2, es),
    decreases order.len(),
{
    if order.len() > 0 {
        lemma_scan_congruent(order.drop_last(), f1, f2, es);
        let id = order.last();
        assert(f1.contains_key(id) && order[order.len() - 1] == id);
        assert(f1[id].alive == f2[id].alive && f1[id].edges@ == f2[id].edges@);
        assert(declares_some(f1[id], es) == declares_some(f2[id], es));
    }
}

/// The affected set and the pruned projection depend only on residency, death marks and edges.
pub proof fn lemma_affected_congruent(
    deps: Map<EdgeKey, Seq<FiberId>>,
    complete: bool,
    f1: Map<FiberId, Fiber>,
    f2: Map<FiberId, Fiber>,
    order: Seq<FiberId>,
    es: Seq<EdgeKey>,
)
    requires
        same_dependency_facts(f1, f2),
        forall|i: int| 0 <= i < order.len() ==> f1.contains_key(#[trigger] order[i]),
    ensures
        affected_of(deps, complete, f1, order, es) == affected_of(deps, complete, f2, order, es),
        pruned_after(deps, es, f1) == pruned_after(deps, es, f2),
{
    lemma_pruned_congruent(deps, es, f1, f2);
    lemma_scan_congruent(order, f1, f2, es);
}

/// Marking rechecks touches exactly the listed resident Fibers' recheck flags.
pub proof fn lemma_mark_rechecked(fibers: Map<FiberId, Fiber>, ids: Seq<FiberId>)
    ensures
        mark_rechecked(fibers, ids).dom() == fibers.dom(),
        forall|id: FiberId| #[trigger] fibers.contains_key(id) ==> mark_rechecked(fibers, ids)[id] == (if ids.contains(id) {
            Fiber { recheck: true, ..fibers[id] }
        } else {
            fibers[id]
        }),
    decreases ids.len(),
{
    if ids.len() > 0 {
        lemma_mark_rechecked(fibers, ids.drop_last());
        let m = mark_rechecked(fibers, ids.drop_last());
        let last = ids.last();
        assert(mark_rechecked(fibers, ids).dom() =~= fibers.dom());
        assert forall|id: FiberId| #[trigger] fibers.contains_key(id) implies mark_rechecked(fibers, ids)[id] == (if ids.contains(id) {
            Fiber { recheck: true, ..fibers[id] }
        } else {
            fibers[id]
        }) by {
            if ids.contains(id) {
                if id != last {
                    let i = choose|i: int| 0 <= i < ids.len() && ids[i] == id;
                    assert(ids.drop_last()[i] == id);
                }
            } else {
                assert(!ids.drop_last().contains(id)) by {
                    if ids.drop_last().contains(id) {
                        let i = choose|i: int| 0 <= i < ids.drop_last().len() && ids.drop_last()[i] == id;
                        assert(ids[i] == id);
                    }
                }
            }
            if ids.drop_last().contains(id) {
                let i = choose|i: int| 0 <= i < ids.drop_last().len() && ids.drop_last()[i] == id;
                assert(ids[i] == id);
            }
        }
    }
}

/// The projection after it was read for the requested edges.
pub open spec fn spec_deps_after<V>(root: Root<V>, es: Seq<EdgeKey>) -> Map<EdgeKey, Seq<FiberId>> {
    if root.deps.spec_complete() { pruned_after(root.deps@, es, root.fibers@) } else { root.deps@ }
}

/// Fibers after committing the recheck mark on each of `ids`.
pub open spec fn mark_rechecked(fibers: Map<FiberId, Fiber>, ids: Seq<FiberId>) -> Map<FiberId, Fiber>
    decreases ids.len(),
{
    if ids.len() == 0 {
        fibers
    } else {
        let m = mark_rechecked(fibers, ids.drop_last());
        let id = ids.last();
        if m.contains_key(id) { m.insert(id, Fiber { recheck: true, ..m[id] }) } else { m }
    }
}

/// Whether `f` declares one of `edges`, by loops.
fn declares_any(f: &Fiber, edges: &Vec<DependencyEdge>) -> (b: bool)
    ensures
        b == declares_some(*f, edge_keys(edges@)),
{
    let mut i: usize = 0;
    while i < f.edges.len()
        invariant
            i <= f.edges@.len(),
            forall|a: int| 0 <= a < i ==> !edge_keys(edges@).contains(#[trigger] f.edges@[a].key()),
        decreases f.edges@.len() - i,
    {
        let mut j: usize = 0;
        while j < edges.len()
            invariant
                i < f.edges@.len(),
                j <= edges@.len(),
                forall|c: int| 0 <= c < j ==> edges@[c].key() != f.edges@[i as int].key(),
            decreases edges@.len() - j,
        {
            if f.edges[i].realm == edges[j].realm && f.edges[i].service == edges[j].service {
                proof {
                    assert(edge_keys(edges@)[j as int] == f.edges@[i as int].key());
                }
                return true;
            }
            j = j + 1;
        }
        proof {
            if edge_keys(edges@).contains(f.edges@[i as int].key()) {
                let c = choose|c: int| 0 <= c < edge_keys(edges@).len() && edge_keys(edges@)[c] == f.edges@[i as int].key();
                assert(edges@[c].key() == f.edges@[i as int].key());
            }
        }
        i = i + 1;
    }
    false
}

impl<V> Root<V> {
    /// Scan resident Fibers for dependents of the requested edges.
    fn scan_dependents(&self, edges: &Vec<DependencyEdge>) -> (r: Vec<FiberId>)
        requires
            self.wf(),
        ensures
            r@ == scan(self.fibers.order(), self.fibers@, edge_keys(edges@)),
    {
        let ghost order = self.fibers.order();
        let ghost es = edge_keys(edges@);
        proof {
            self.fibers.lemma_wf();
        }
        let mut r: Vec<FiberId> = Vec::new();
        let mut i: usize = 0;
        while i < self.fibers.len()
            invariant
                self.wf(),
                order == self.fibers.order(),
                es == edge_keys(edges@),
                i <= order.len(),
                forall|k: int| 0 <= k < order.len() ==> self.fibers@.contains_key(#[trigger] order[k]),
                r@ == scan(order.take(i as int), self.fibers@, es),
            decreases order.len() - i,
        {
            proof {
                assert(order.take(i + 1).drop_last() =~= order.take(i as int));
                assert(order.take(i + 1).last() == order[i as int]);
            }
            let id = self.fibers.id_at(i);
            match self.fibers.get(id) {
                Some(f) => {
                    if f.alive && declares_any(f, edges) {
                        r.push(id);
                    }
                },
                None => {},
            }
            i = i + 1;
        }
        proof {
            assert(order.take(order.len() as int) =~= order);
        }
        r
    }

    /// The unique dependents of the requested edges: from the projection when
    /// it is complete, else from the authoritative scan.
    pub fn dependents_for_edges(&mut self, edges: &Vec<DependencyEdge>) -> (r: Vec<FiberId>)
        requires
            old(self).wf(),
        ensures
            final(self).wf(),
            r@ == spec_affected(*old(self), edge_keys(edges@)),
            final(self).deps@ == spec_deps_after(*old(self), edge_keys(edges@)),
            final(self).deps.spec_complete() == old(self).deps.spec_complete(),
            final(self).fibers == old(self).fibers,
            final(self).services == old(self).services,
            final(self).listeners == old(self).listeners,
            final(self).observations == old(self).observations,
            final(self).membership == old(self).membership,
            final(self).next_occurrence == old(self).next_occurrence,
            final(self).next_fiber == old(self).next_fiber,
            final(self).next_realm == old(self).next_realm,
    {
        match self.deps.dependents_of(edges, &self.fibers) {
            Some(v) => v,
            None => self.scan_dependents(edges),
        }
    }

    /// Commit the durable recheck mark on every affected dependent.
    pub fn notify_dependents_for_edges(&mut self, edges: &Vec<DependencyEdge>) -> (affected: Vec<FiberId>)
        requires
            old(self).wf(),
        ensures
            final(self).wf(),
            affected@ == spec_affected(*old(self), edge_keys(edges@)),
            final(self).fibers@ == mark_rechecked(old(self).fibers@, affected@),
            final(self).fibers.order() == old(self).fibers.order(),
            final(self).deps@ == spec_deps_after(*old(self), edge_keys(edges@)),
            final(self).deps.spec_complete() == old(self).deps.spec_complete(),
            final(self).services == old(self).services,
            final(self).listeners == old(self).listeners,
            final(self).observations == old(self).observations,
            final(self).membership == old(self).membership,
            final(self).next_occurrence == old(self).next_occurrence,
            final(self).next_fiber == old(self).next_fiber,
            final(self).next_realm == old(self).next_realm,
    {
        let affected = self.dependents_for_edges(edges);
        let ghost base = self.fibers@;
        let mut j: usize = 0;
        while j < affected.len()
            invariant
                self.wf(),
                j <= affected@.len(),
                self.fibers@ == mark_rechecked(base, affected@.take(j as int)),
                self.fibers.order() == old(self).fibers.order(),
                forall|id: FiberId| #[trigger] self.fibers@.contains_key(id) <==> base.contains_key(id),
                self.deps@ == spec_deps_after(*old(self), edge_keys(edges@)),
                self.deps.spec_complete() == old(self).deps.spec_complete(),
                self.services == old(self).services,
                self.listeners == old(self).listeners,
                self.observations == old(self).observations,
                self.membership == old(self).membership,
                self.next_occurrence == old(self).next_occurrence,
                self.next_fiber == old(self).next_fiber,
                self.next_realm == old(self).next_realm,
                base == old(self).fibers@,
            decreases affected@.len() - j,
        {
            proof {
                assert(affected@.take(j + 1).drop_last() =~= affected@.take(j as int));
                assert(affected@.take(j + 1).last() == affected@[j as int]);
            }
            self.fibers.commit_recheck(affected[j]);
            j = j + 1;
        }
        proof {
            assert(affected@.take(affected@.len() as int) =~= affected@);
        }
        affected
    }
}

impl<V> Root<V> {
    /// Announce a visibility change of one exact slot: notify its dependents
    /// and publish the observation.
    pub fn announce_visibility(&mut self, service: &String, realm: RealmKey, previous: Option<u64>, current: Option<u64>)
        requires
            old(self).wf(),
        ensures
            final(self).wf(),
            ({
                let es = seq![(service@, realm)];
                let affected = spec_affected(*old(self), es);
                &&& final(self).fibers@ == mark_rechecked(old(self).fibers@, affected)
                &&& final(self).fibers.order() == old(self).fibers.order()
                &&& final(self).deps@ == spec_deps_after(*old(self), es)
                &&& final(self).deps.spec_complete() == old(self).deps.spec_complete()
            }),
            final(self).observations@ == old(self).observations@.push(RuntimeObservation::ServiceVisibility {
                service: *service,
                realm: ServiceRealm::realm_of(old(self).membership, realm),
                previous,
                current,
            }),
            final(self).services == old(self).services,
            final(self).listeners == old(self).listeners,
            final(self).membership == old(self).membership,
            final(self).next_occurrence == old(self).next_occurrence,
            final(self).next_fiber == old(self).next_fiber,
            final(self).next_realm == old(self).next_realm,
    {
        let mut edges: Vec<DependencyEdge> = Vec::new();
        edges.push(DependencyEdge::new(service.clone(), realm));
        proof {
            assert(edge_keys(edges@) =~= seq![(service@, realm)]);
        }
        self.notify_dependents_for_edges(&edges);
        self.observations.push(RuntimeObservation::ServiceVisibility {
            service: service.clone(),
            realm: ServiceRealm::new(self.membership, realm),
            previous,
            current,
        });
    }
}

/// A Context: the Fiber generation it registers into and its isolate axis.
pub struct Context {
    pub fiber: FiberId,
    pub realms: Vec<(String, RealmKey)>,
}

/// The realm a name resolves to under a mapping: its first mapping, else the default.
pub open spec fn realm_for(realms: Seq<(String, RealmKey)>, name: Seq<char>) -> RealmKey
    decreases realms.len(),
{
    if realms.len() == 0 {
        DEFAULT_REALM
    } else if realms[0].0@ == name {
        realms[0].1
    } else {
        realm_for(realms.drop_first(), name)
    }
}

impl Context {
    /// The Service realm mapping of this Context, as installed.
    pub closed spec fn realm_mapping(&self) -> Seq<(String, RealmKey)> {
        self.realms@
    }

    pub open spec fn spec_isolate_key(&self, name: Seq<char>) -> RealmKey {
        realm_for(self.realm_mapping(), name)
    }

    /// A Context of Fiber `fiber` with every Service in the default realm.
    pub fn new(fiber: FiberId) -> (c: Context)
        ensures
            c.fiber == fiber,
            c.realm_mapping().len() == 0,
            forall|name: Seq<char>| c.spec_isolate_key(name) == DEFAULT_REALM,
    {
        Context { fiber, realms: Vec::new() }
    }

    /// The exact realm selected for Service `name`.
    pub fn isolate_key(&self, name: &String) -> (k: RealmKey)
        ensures
            k == self.spec_isolate_key(name@),
    {
        let mut i: usize = 0;
        proof {
            assert(self.realms@.skip(0) =~= self.realms@);
        }
        while i < self.realms.len()
            invariant
                i <= self.realms@.len(),
                realm_for(self.realms@, name@) == realm_for(self.realms@.skip(i as int), name@),
            decreases self.realms@.len() - i,
        {
            proof {
                assert(self.realms@.skip(i as int).drop_first() =~= self.realms@.skip(i + 1));
            }
            if self.realms[i].0 == *name {
                return self.realms[i].1;
            }
            i = i + 1;
        }
        DEFAULT_REALM
    }
}


/// Entry `i` of a mapping batch repeats an earlier Service name.
pub open spec fn mapping_duplicate(ms: Seq<(String, ServiceRealm)>, i: int) -> bool {
    exists|j: int| 0 <= j < i && #[trigger] ms[j].0@ == ms[i].0@
}

/// Entry `i` of a mapping batch uses a realm of another Runtime.
pub open spec fn mapping_foreign(ms: Seq<(String, ServiceRealm)>, i: int, membership: u64) -> bool {
    ms[i].1.spec_membership() != membership
}

/// Entries before `n` are all acceptable.
pub open spec fn mapping_valid_before(ms: Seq<(String, ServiceRealm)>, n: int, membership: u64) -> bool {
    forall|i: int| 0 <= i < n ==> !mapping_duplicate(ms, i) && !mapping_foreign(ms, i, membership)
}

/// The `(name, key)` pairs a batch installs.
pub open spec fn mapping_pairs(ms: Seq<(String, ServiceRealm)>) -> Seq<(String, RealmKey)> {
    ms.map_values(|p: (String, ServiceRealm)| (p.0, p.1.spec_key()))
}

impl Context {
    /// Derive a Context whose isolate axis maps each named Service to the given
    /// realm of this Runtime, atomically: the first invalid entry refuses the
    /// whole batch.
    pub fn with_service_realms<V>(&self, root: &Root<V>, mappings: &Vec<(String, ServiceRealm)>) -> (r: Result<Context, RealmMappingError>)
        ensures
            ({
                let ms = mappings@;
                let m = root.membership;
                match r {
                    Ok(c) => mapping_valid_before(ms, ms.len() as int, m) && c.fiber == self.fiber
                        && c.realm_mapping() == mapping_pairs(ms) + self.realm_mapping(),
                    Err(RealmMappingError::DuplicateService { service }) => exists|i: int| 0 <= i < ms.len()
                        && mapping_valid_before(ms, i, m) && mapping_duplicate(ms, i) && service == #[trigger] ms[i].0,
                    Err(RealmMappingError::ForeignRealm { service }) => exists|i: int| 0 <= i < ms.len()
                        && mapping_valid_before(ms, i, m) && !mapping_duplicate(ms, i) && mapping_foreign(ms, i, m)
                        && service == #[trigger] ms[i].0,
                }
            }),
    {
        let ghost ms = mappings@;
        let mut realms: Vec<(String, RealmKey)> = Vec::new();
        let mut i: usize = 0;
        while i < mappings.len()
            invariant
                ms == mappings@,
                i <= ms.len(),
                mapping_valid_before(ms, i as int, root.membership),
                realms@ == mapping_pairs(ms).take(i as int),
            decreases ms.len() - i,
        {
            let mut j: usize = 0;
            while j < i
                invariant
                    ms == mappings@,
                    i < ms.len(),
                    j <= i,
                    mapping_valid_before(ms, i as int, root.membership),
                    forall|k: int| 0 <= k < j ==> ms[k].0@ != ms[i as int].0@,
                decreases i - j,
            {
                if mappings[j].0 == mappings[i].0 {
                    proof {
                        assert(ms[j as int].0@ == ms[i as int].0@);
                        assert(mapping_duplicate(ms, i as int));
                    }
                    return Err(RealmMappingError::DuplicateService { service: mappings[i].0.clone() });
                }
                j = j + 1;
            }
            if !mappings[i].1.belongs_to(root.membership) {
                proof {
                    assert(!mapping_duplicate(ms, i as int));
                }
                return Err(RealmMappingError::ForeignRealm { service: mappings[i].0.clone() });
            }
            realms.push((mappings[i].0.clone(), mappings[i].1.key()));
            proof {
                assert(!mapping_duplicate(ms, i as int));
                assert(realms@ =~= mapping_pairs(ms).take(i + 1));
            }
            i = i + 1;
        }
        let ghost first = realms@;
        let mut k: usize = 0;
        while k < self.realms.len()
            invariant
                k <= self.realms@.len(),
                realms@ == first + self.realms@.take(k as int),
            decreases self.realms@.len() - k,
        {
            realms.push((self.realms[k].0.clone(), self.realms[k].1));
            k = k + 1;
            proof {
                assert(realms@ =~= first + self.realms@.take(k as int));
            }
        }
        proof {
            assert(mapping_pairs(ms).take(ms.len() as int) =~= mapping_pairs(ms));
            assert(self.realms@.take(self.realms@.len() as int) =~= self.realms@);
        }
        Ok(Context { fiber: self.fiber, realms })
    }
}

} // verus!
